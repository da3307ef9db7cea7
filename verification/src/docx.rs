//! Word documents: the body's paragraphs become blocks, headings
//! recognised by their paragraph style name. The body comes as plain
//! values: paragraphs with their style and runs.

use vstd::prelude::*;
use crate::detect::lower_upto;
use crate::document::{join_blank, Block, Document, DocumentFormat, Section};
use crate::parse::{blocks_view, doc_from_text, doc_view, opt_view, section_view, text_doc, BlockView};
use crate::textutil::{
    char_lowercase, chars_of, is_digit, lowercase, lowercase_string, starts_with, str_lowercase,
    string_from_chars, trim, trim_bounds,
};

verus! {

/// The ASCII digits among the first `n` chars of `s`.
pub open spec fn digits_upto(s: Seq<char>, n: int) -> Seq<char>
    decreases n,
{
    if n <= 0 {
        Seq::empty()
    } else if is_digit(s[n - 1]) {
        digits_upto(s, n - 1).push(s[n - 1])
    } else {
        digits_upto(s, n - 1)
    }
}

/// The decimal value of the first `n` digits of `ds`.
pub open spec fn decimal_upto(ds: Seq<char>, n: int) -> nat
    decreases n,
{
    if n <= 0 {
        0
    } else {
        (10 * decimal_upto(ds, n - 1) + ((ds[n - 1] as u32) - ('0' as u32))) as nat
    }
}

/// The heading level that a Word style name gives: a name that, lowercased,
/// begins with `heading`, `title` or `titre` (French) and whose digits spell
/// a number from 1 to 9.
pub open spec fn style_heading_level(style_name: Seq<char>) -> Option<u8> {
    let lower = lower_upto(style_name, style_name.len() as int);
    let ds = digits_upto(lower, lower.len() as int);
    let v = decimal_upto(ds, ds.len() as int);
    if (starts_with(lower, "heading"@) || starts_with(lower, "title"@) || starts_with(lower, "titre"@))
        && ds.len() > 0 && 1 <= v <= 9 {
        Some(v as u8)
    } else {
        None
    }
}

/// The lowercase of a string, char by char. (`str::to_lowercase` differs
/// from this only in giving a final capital sigma its final form.)
fn lower_chars(s: &[char]) -> (r: Vec<char>)
    ensures
        r@ == lower_upto(s@, s@.len() as int),
{
    let mut out: Vec<char> = Vec::new();
    let mut i: usize = 0;
    while i < s.len()
        invariant
            i <= s@.len(),
            out@ == lower_upto(s@, i as int),
        decreases s@.len() - i,
    {
        let l = char_lowercase(s[i]);
        let mut j: usize = 0;
        let ghost before = out@;
        while j < l.len()
            invariant
                j <= l@.len(),
                out@ == before + l@.take(j as int),
            decreases l@.len() - j,
        {
            out.push(l[j]);
            j += 1;
            assert(out@ =~= before + l@.take(j as int));
        }
        assert(l@.take(j as int) =~= l@);
        assert(l@ == lowercase(s@[i as int]));
        i += 1;
    }
    out
}

/// Whether `s` begins with `p`.
fn begins_with(s: &[char], p: &str) -> (r: bool)
    ensures
        r == starts_with(s@, p@),
{
    let pc = chars_of(p);
    if pc.len() > s.len() {
        return false;
    }
    let mut i: usize = 0;
    while i < pc.len()
        invariant
            pc@ == p@,
            pc@.len() <= s@.len(),
            i <= pc@.len(),
            forall|k: int| 0 <= k < i ==> s@[k] == pc@[k],
        decreases pc@.len() - i,
    {
        if s[i] != pc[i] {
            return false;
        }
        i += 1;
    }
    assert(s@.take(pc@.len() as int) =~= pc@);
    true
}

/// Map a Word style name to a heading level, if any, ignoring case:
/// `heading1`, `Heading 2`, `Title 3`, `titre 1` and the like give levels 1
/// to 9.
pub fn heading_level(style_name: &str) -> (r: Option<u8>)
    ensures
        r == style_heading_level(style_name@),
{
    let cs = chars_of(style_name);
    let lower = lower_chars(cs.as_slice());
    if !(begins_with(lower.as_slice(), "heading") || begins_with(lower.as_slice(), "title")
        || begins_with(lower.as_slice(), "titre")) {
        return None;
    }
    let ghost ds = digits_upto(lower@, lower@.len() as int);
    let mut count: usize = 0;
    let mut v: u8 = 0;
    let mut i: usize = 0;
    while i < lower.len()
        invariant
            i <= lower@.len(),
            count == digits_upto(lower@, i as int).len(),
            count <= i,
            v == (if decimal_upto(digits_upto(lower@, i as int), count as int) < 10 {
                decimal_upto(digits_upto(lower@, i as int), count as int)
            } else {
                10
            }),
        decreases lower@.len() - i,
    {
        let c = lower[i];
        let ghost prev = digits_upto(lower@, i as int);
        if '0' <= c && c <= '9' {
            let d: u8 = ((c as u32) - ('0' as u32)) as u8;
            let ghost next = digits_upto(lower@, i + 1);
            assert(next == prev.push(c));
            proof {
                lemma_decimal_prefix(prev, next, count as int);
            }
            if v < 10 {
                let w: u8 = 10 * v + d;
                v = if w < 10 { w } else { 10 };
            }
            count += 1;
        } else {
            assert(digits_upto(lower@, i + 1) == prev);
        }
        i += 1;
    }
    assert(count == ds.len());
    if count > 0 && 1 <= v && v <= 9 {
        Some(v)
    } else {
        None
    }
}

proof fn lemma_decimal_prefix(a: Seq<char>, b: Seq<char>, n: int)
    requires
        0 <= n <= a.len(),
        n <= b.len(),
        forall|i: int| 0 <= i < n ==> a[i] == b[i],
    ensures
        decimal_upto(a, n) == decimal_upto(b, n),
    decreases n,
{
    if n > 0 {
        lemma_decimal_prefix(a, b, n - 1);
    }
}

/// An item of a run.
#[derive(Debug)]
pub enum RunItem {
    Text(String),
    Tab,
    Break,
    Other,
}

/// A child of a paragraph: a run of items, a hyperlink holding runs (`None`
/// for any other child of the hyperlink), or anything else.
#[derive(Debug)]
pub enum ParaItem {
    Run(Vec<RunItem>),
    Hyperlink(Vec<Option<Vec<RunItem>>>),
    Other,
}

/// A paragraph: its style name, if any, and its children.
#[derive(Debug)]
pub struct DocxParagraph {
    pub style: Option<String>,
    pub children: Vec<ParaItem>,
}

/// A child of the document body.
#[derive(Debug)]
pub enum BodyItem {
    Paragraph(DocxParagraph),
    Other,
}

/// The text of the first `n` items of a run: texts, and, outside
/// hyperlinks, tabs and line breaks.
pub open spec fn run_text(items: Seq<RunItem>, linked: bool, n: int) -> Seq<char>
    decreases n,
{
    if n <= 0 {
        Seq::empty()
    } else {
        run_text(items, linked, n - 1) + match items[n - 1] {
            RunItem::Text(t) => t@,
            RunItem::Tab => if linked { Seq::empty() } else { seq!['\t'] },
            RunItem::Break => if linked { Seq::empty() } else { seq!['\n'] },
            RunItem::Other => Seq::empty(),
        }
    }
}

/// The text of the runs among the first `n` children of a hyperlink.
pub open spec fn link_text(runs: Seq<Option<Vec<RunItem>>>, n: int) -> Seq<char>
    decreases n,
{
    if n <= 0 {
        Seq::empty()
    } else {
        link_text(runs, n - 1) + match runs[n - 1] {
            Some(items) => run_text(items@, true, items@.len() as int),
            None => Seq::empty(),
        }
    }
}

/// The text of the first `n` children of a paragraph.
pub open spec fn para_text(children: Seq<ParaItem>, n: int) -> Seq<char>
    decreases n,
{
    if n <= 0 {
        Seq::empty()
    } else {
        para_text(children, n - 1) + match children[n - 1] {
            ParaItem::Run(items) => run_text(items@, false, items@.len() as int),
            ParaItem::Hyperlink(runs) => link_text(runs@, runs@.len() as int),
            ParaItem::Other => Seq::empty(),
        }
    }
}

/// The text of a body item: a paragraph's text, or nothing.
pub open spec fn item_text(item: BodyItem) -> Seq<char> {
    match item {
        BodyItem::Paragraph(p) => para_text(p.children@, p.children@.len() as int),
        BodyItem::Other => Seq::empty(),
    }
}

/// The title and blocks after the first `n` body items: each non-blank
/// paragraph becomes a heading when its style names a level, else a
/// paragraph; the first level-1 heading is the title.
pub open spec fn body_run(items: Seq<BodyItem>, n: int) -> (Option<Seq<char>>, Seq<BlockView>)
    decreases n,
{
    if n <= 0 {
        (None, Seq::empty())
    } else {
        let (title, bs) = body_run(items, n - 1);
        match items[n - 1] {
            BodyItem::Paragraph(p) => {
                let text = trim(para_text(p.children@, p.children@.len() as int));
                let level = match p.style {
                    Some(s) => style_heading_level(str_lowercase(s@)),
                    None => None,
                };
                if text.len() == 0 {
                    (title, bs)
                } else {
                    match level {
                        Some(l) => (
                            if l == 1 && title is None { Some(text) } else { title },
                            bs.push(BlockView::Heading(l, text)),
                        ),
                        None => (title, bs.push(BlockView::Paragraph(text))),
                    }
                }
            },
            BodyItem::Other => (title, bs),
        }
    }
}

/// The document of a Word body: its blocks in one section, or, when no
/// paragraph has text, the texts of its items joined by blank lines as plain
/// paragraphs.
pub open spec fn docx_doc(items: Seq<BodyItem>) -> (Option<Seq<char>>, DocumentFormat, Seq<(Option<Seq<char>>, u8, Seq<BlockView>)>) {
    let (title, bs) = body_run(items, items.len() as int);
    if bs.len() == 0 {
        text_doc(DocumentFormat::Docx, join_blank(items.map_values(|i: BodyItem| item_text(i))))
    } else {
        (title, DocumentFormat::Docx, seq![(None, 0u8, bs)])
    }
}

/// `out` with the text of a run after it.
fn push_run(out: &mut Vec<char>, items: &Vec<RunItem>, linked: bool)
    ensures
        final(out)@ == old(out)@ + run_text(items@, linked, items@.len() as int),
{
    let mut i: usize = 0;
    while i < items.len()
        invariant
            i <= items@.len(),
            out@ == old(out)@ + run_text(items@, linked, i as int),
        decreases items@.len() - i,
    {
        let ghost before = out@;
        match &items[i] {
            RunItem::Text(t) => {
                let cs = chars_of(t.as_str());
                let mut j: usize = 0;
                while j < cs.len()
                    invariant
                        j <= cs@.len(),
                        out@ == before + cs@.take(j as int),
                    decreases cs@.len() - j,
                {
                    out.push(cs[j]);
                    j += 1;
                    assert(out@ =~= before + cs@.take(j as int));
                }
                assert(cs@.take(j as int) =~= cs@);
            },
            RunItem::Tab => {
                if !linked {
                    out.push('\t');
                }
            },
            RunItem::Break => {
                if !linked {
                    out.push('\n');
                }
            },
            RunItem::Other => {},
        }
        assert(out@ =~= old(out)@ + run_text(items@, linked, i + 1));
        i += 1;
    }
}

/// The text of a paragraph (`paragraph_text`).
pub fn paragraph_text(p: &DocxParagraph) -> (r: Vec<char>)
    ensures
        r@ == para_text(p.children@, p.children@.len() as int),
{
    let mut out: Vec<char> = Vec::new();
    let mut i: usize = 0;
    while i < p.children.len()
        invariant
            i <= p.children@.len(),
            out@ == para_text(p.children@, i as int),
        decreases p.children@.len() - i,
    {
        let ghost before = out@;
        match &p.children[i] {
            ParaItem::Run(items) => push_run(&mut out, items, false),
            ParaItem::Hyperlink(runs) => {
                let mut k: usize = 0;
                while k < runs.len()
                    invariant
                        k <= runs@.len(),
                        out@ == before + link_text(runs@, k as int),
                    decreases runs@.len() - k,
                {
                    match &runs[k] {
                        Some(items) => push_run(&mut out, items, true),
                        None => {},
                    }
                    assert(out@ =~= before + link_text(runs@, k + 1));
                    k += 1;
                }
            },
            ParaItem::Other => {},
        }
        assert(out@ =~= para_text(p.children@, i + 1));
        i += 1;
    }
    out
}

/// The document of a Word body (the paragraphs of `docx_rs`'s document
/// children, as plain values).
pub fn doc_from_body(items: &Vec<BodyItem>) -> (d: Document)
    ensures
        doc_view(d) == docx_doc(items@),
{
    let mut title: Option<String> = None;
    let mut blocks: Vec<Block> = Vec::new();
    let mut i: usize = 0;
    while i < items.len()
        invariant
            i <= items@.len(),
            (opt_view(title), blocks_view(blocks@)) == body_run(items@, i as int),
        decreases items@.len() - i,
    {
        let ghost bv = blocks_view(blocks@);
        match &items[i] {
            BodyItem::Paragraph(p) => {
                let text = paragraph_text(p);
                let (a, b) = trim_bounds(text.as_slice(), 0, text.len());
                assert(text@.subrange(0, text@.len() as int) =~= text@);
                if a < b {
                    let level = match &p.style {
                        Some(s) => heading_level(lowercase_string(s.as_str()).as_str()),
                        None => None,
                    };
                    let t = string_from_chars(vstd::slice::slice_subrange(text.as_slice(), a, b));
                    let ghost tv = t@;
                    match level {
                        Some(l) => {
                            if l == 1 && title.is_none() {
                                title = Some(string_from_chars(vstd::slice::slice_subrange(text.as_slice(), a, b)));
                            }
                            blocks.push(Block::Heading { level: l, text: t });
                            assert(blocks_view(blocks@) =~= bv.push(BlockView::Heading(l, tv)));
                        },
                        None => {
                            blocks.push(Block::Paragraph { text: t });
                            assert(blocks_view(blocks@) =~= bv.push(BlockView::Paragraph(tv)));
                        },
                    }
                }
            },
            BodyItem::Other => {},
        }
        i += 1;
    }
    if blocks.len() == 0 {
        let ghost texts = items@.map_values(|it: BodyItem| item_text(it));
        let mut out: Vec<char> = Vec::new();
        let mut k: usize = 0;
        while k < items.len()
            invariant
                texts == items@.map_values(|it: BodyItem| item_text(it)),
                k <= items@.len(),
                out@ == join_blank(texts.take(k as int)),
            decreases items@.len() - k,
        {
            let ghost base0 = out@;
            if k > 0 {
                out.push('\n');
                out.push('\n');
            }
            let ghost base = out@;
            match &items[k] {
                BodyItem::Paragraph(p) => {
                    let t = paragraph_text(p);
                    let mut q: usize = 0;
                    while q < t.len()
                        invariant
                            q <= t@.len(),
                            out@ == base + t@.take(q as int),
                        decreases t@.len() - q,
                    {
                        out.push(t[q]);
                        q += 1;
                        assert(out@ =~= base + t@.take(q as int));
                    }
                    assert(t@.take(q as int) =~= t@);
                },
                BodyItem::Other => {
                    assert(out@ =~= base + Seq::<char>::empty());
                },
            }
            assert(texts[k as int] == item_text(items@[k as int]));
            assert(texts.take(k + 1).drop_last() =~= texts.take(k as int));
            if k == 0 {
                assert(texts.take(1) =~= seq![texts[0]]);
            }
            assert(out@ =~= join_blank(texts.take(k + 1)));
            k += 1;
        }
        assert(texts.take(k as int) =~= texts);
        let stripped = string_from_chars(out.as_slice());
        return doc_from_text(DocumentFormat::Docx, stripped.as_str());
    }
    let d = Document {
        title,
        format: DocumentFormat::Docx,
        sections: vec![Section { heading: None, level: 0, blocks }],
    };
    assert(d.sections@.map_values(|s: Section| section_view(s)) =~= seq![(None, 0u8, body_run(items@, items@.len() as int).1)]);
    d
}

} // verus!
