//! EPUB books: the text of the HTML and XML parts of the spine, tags
//! stripped, as plain paragraphs; the title from the metadata when the text
//! gives none. The spine comes as plain values: each part's bytes and media
//! type.

use vstd::prelude::*;
use crate::document::{Document, DocumentFormat};
use crate::html::{strip_markup, strip_tags};
use crate::parse::{doc_from_text, doc_view, opt_view, text_doc, BlockView};
use crate::textutil::{chars_of, contains, decode_lossy, find_from, occurs_at, string_from_chars, trim, trim_bounds, utf8_lossy};

verus! {

/// A media type of marked-up text.
pub open spec fn markup_type(mime: Seq<char>) -> bool {
    contains(mime, "html"@) || contains(mime, "xml"@)
}

/// The text of the first `n` spine parts: the trimmed text of each marked-up
/// part, tags stripped, each non-blank one followed by a blank line.
pub open spec fn spine_text(items: Seq<Option<(Seq<u8>, Seq<char>)>>, n: int) -> Seq<char>
    decreases n,
{
    if n <= 0 {
        Seq::empty()
    } else {
        let prev = spine_text(items, n - 1);
        match items[n - 1] {
            Some((bytes, mime)) => {
                let t = trim(strip_tags(utf8_lossy(bytes)));
                if markup_type(mime) && t.len() > 0 {
                    prev + t + seq!['\n', '\n']
                } else {
                    prev
                }
            },
            None => prev,
        }
    }
}

/// A spine part as plain values.
pub open spec fn part_view(o: Option<(Vec<u8>, String)>) -> Option<(Seq<u8>, Seq<char>)> {
    match o {
        Some((b, m)) => Some((b@, m@)),
        None => None,
    }
}

/// The metadata title, trimmed, unless blank.
pub open spec fn meta_title(title: Option<Seq<char>>) -> Option<Seq<char>> {
    match title {
        Some(t) => if trim(t).len() > 0 { Some(trim(t)) } else { None },
        None => None,
    }
}

/// The document of a book: its spine text as plain paragraphs, titled by
/// the text or else by the metadata.
pub open spec fn epub_doc(title: Option<Seq<char>>, items: Seq<Option<(Seq<u8>, Seq<char>)>>) -> (Option<Seq<char>>, DocumentFormat, Seq<(Option<Seq<char>>, u8, Seq<BlockView>)>) {
    let d = text_doc(DocumentFormat::Epub, spine_text(items, items.len() as int));
    if d.0 is None {
        (meta_title(title), d.1, d.2)
    } else {
        d
    }
}

/// Whether `p` occurs in `s`.
fn has_text(s: &[char], p: &str) -> (r: bool)
    ensures
        r == contains(s@, p@),
{
    let pc = chars_of(p);
    if pc.len() == 0 {
        assert(s@.subrange(0, 0) =~= p@);
        assert(occurs_at(s@, p@, 0));
        return true;
    }
    assert(s@.take(s@.len() as int) =~= s@);
    match find_from(s, 0, s.len(), pc.as_slice()) {
        Some(_) => true,
        None => false,
    }
}

/// The trimmed text of `s`.
fn trimmed_text(s: &String) -> (r: Vec<char>)
    ensures
        r@ == trim(s@),
{
    let cs = chars_of(s.as_str());
    let (a, b) = trim_bounds(cs.as_slice(), 0, cs.len());
    assert(cs@.subrange(0, cs@.len() as int) =~= cs@);
    let mut out: Vec<char> = Vec::new();
    let mut i = a;
    while i < b
        invariant
            a <= i <= b <= cs@.len(),
            out@ == cs@.subrange(a as int, i as int),
        decreases b - i,
    {
        out.push(cs[i]);
        i += 1;
        assert(out@ =~= cs@.subrange(a as int, i as int));
    }
    out
}

/// The document of a book from its metadata title and its spine parts (the
/// bytes and media type of each, `None` where a part could not be read).
pub fn doc_from_spine(title: Option<String>, items: &Vec<Option<(Vec<u8>, String)>>) -> (d: Document)
    ensures
        doc_view(d) == epub_doc(opt_view(title), items@.map_values(|o: Option<(Vec<u8>, String)>| part_view(o))),
{
    let ghost iv = items@.map_values(|o: Option<(Vec<u8>, String)>| part_view(o));
    let mut out: Vec<char> = Vec::new();
    let mut i: usize = 0;
    while i < items.len()
        invariant
            iv == items@.map_values(|o: Option<(Vec<u8>, String)>| part_view(o)),
            i <= items@.len(),
            out@ == spine_text(iv, i as int),
        decreases items@.len() - i,
    {
        assert(iv[i as int] == part_view(items@[i as int]));
        match &items[i] {
            Some((bytes, mime)) => {
                let mc = chars_of(mime.as_str());
                let markup = has_text(mc.as_slice(), "html") || has_text(mc.as_slice(), "xml");
                let s = decode_lossy(bytes.as_slice());
                let stripped = strip_markup(s.as_str());
                let t = trimmed_text(&stripped);
                if markup && t.len() > 0 {
                    let ghost before = out@;
                    let mut k: usize = 0;
                    while k < t.len()
                        invariant
                            k <= t@.len(),
                            out@ == before + t@.take(k as int),
                        decreases t@.len() - k,
                    {
                        out.push(t[k]);
                        k += 1;
                        assert(out@ =~= before + t@.take(k as int));
                    }
                    assert(t@.take(k as int) =~= t@);
                    out.push('\n');
                    out.push('\n');
                    assert(out@ =~= before + t@ + seq!['\n', '\n']);
                }
            },
            None => {},
        }
        i += 1;
    }
    let text = string_from_chars(out.as_slice());
    let mut doc = doc_from_text(DocumentFormat::Epub, text.as_str());
    if doc.title.is_none() {
        doc.title = match title {
            Some(t) => {
                let v = trimmed_text(&t);
                if v.len() > 0 {
                    Some(string_from_chars(v.as_slice()))
                } else {
                    None
                }
            },
            None => None,
        };
    }
    doc
}

} // verus!
