//! Format detection: magic bytes for binary formats (PDF, ZIP-based office
//! formats), then heuristics on the decoded text (HTML tags, Markdown
//! markers), and finally plain text.

use vstd::prelude::*;
use crate::document::DocumentFormat;
use crate::textutil::{
    byte_len, char_lowercase, char_width, chars_of, contains, decode_lossy, find_from, has_prefix,
    is_digit, lemma_byte_len_prefix, lemma_byte_len_step, lines_of, line_spans,
    lowercase, occurs_at, starts_with, text_lines, trim_bounds, trim_start, utf8_lossy, is_ascii,
    ascii_lower,
};

verus! {

/// `%PDF-`.
pub open spec fn pdf_magic() -> Seq<u8> {
    seq![0x25u8, 0x50u8, 0x44u8, 0x46u8, 0x2du8]
}

/// `PK\x03\x04`, the start of a ZIP container.
pub open spec fn zip_magic() -> Seq<u8> {
    seq![0x50u8, 0x4bu8, 0x03u8, 0x04u8]
}

/// `s` begins with the bytes `p`.
pub open spec fn bytes_start_with(s: Seq<u8>, p: Seq<u8>) -> bool {
    p.len() <= s.len() && s.take(p.len() as int) == p
}

/// The lowercase of `t[..n]`, char by char.
pub open spec fn lower_upto(t: Seq<char>, n: int) -> Seq<char>
    decreases n,
{
    if n <= 0 {
        Seq::empty()
    } else {
        lower_upto(t, n - 1) + lowercase(t[n - 1])
    }
}

/// The lowercase of the first 32 chars of `t`.
pub open spec fn lower_prefix(t: Seq<char>) -> Seq<char> {
    lower_upto(t, if t.len() < 32 { t.len() as int } else { 32 })
}

/// A text that opens like an HTML document.
pub open spec fn html_opener(t: Seq<char>) -> bool {
    starts_with(lower_prefix(t), "<!doctype html"@) || starts_with(lower_prefix(t), "<html"@)
}

/// The probe for a closing tag reads the first `k` chars of `text`: the
/// longest prefix that fits in 2048 bytes, so it stops at the last char
/// boundary at or below byte 2048.
pub open spec fn probe_end(text: Seq<char>, k: int) -> bool {
    &&& 0 <= k <= text.len()
    &&& byte_len(text.take(k)) <= 2048
    &&& (k == text.len() || byte_len(text.take(k + 1)) > 2048)
}

/// The first 2048 bytes of `text`, cut at a char boundary, hold `</`.
pub open spec fn has_html_tag(text: Seq<char>) -> bool {
    exists|k: int| #[trigger] probe_end(text, k) && contains(text.take(k), "</"@)
}

/// A line (trimmed at its start) that marks Markdown: an ATX heading, a code
/// fence, a bullet, or a link.
pub open spec fn markdown_line(l: Seq<char>) -> bool {
    ||| (l.len() > 1 && l[0] == '#' && (l[1] == ' ' || is_digit(l[1])))
    ||| starts_with(l, "```"@)
    ||| starts_with(l, "- "@)
    ||| starts_with(l, "* "@)
    ||| (contains(l, "]("@) && l.contains('['))
}

/// One of the first 40 lines marks Markdown.
pub open spec fn looks_like_markdown(text: Seq<char>) -> bool {
    exists|i: int| 0 <= i < 40 && 0 <= i < text_lines(text).len() && markdown_line(trim_start(#[trigger] text_lines(text)[i]))
}

/// The format of a decoded text.
pub open spec fn text_format(text: Seq<char>) -> DocumentFormat {
    let t = trim_start(text);
    if t.len() == 0 {
        DocumentFormat::PlainText
    } else if html_opener(t) || (t[0] == '<' && has_html_tag(text)) {
        DocumentFormat::Html
    } else if looks_like_markdown(text) {
        DocumentFormat::Markdown
    } else {
        DocumentFormat::PlainText
    }
}

/// The format of raw bytes.
pub open spec fn detected_format(input: Seq<u8>) -> DocumentFormat {
    if input.len() == 0 {
        DocumentFormat::Unknown
    } else if bytes_start_with(input, pdf_magic()) {
        DocumentFormat::Pdf
    } else if bytes_start_with(input, zip_magic()) {
        if window_matches(input, zip_window(input), 8, mimetype_name()) {
            DocumentFormat::Epub
        } else {
            DocumentFormat::Docx
        }
    } else {
        text_format(utf8_lossy(input))
    }
}

/// `mimetype`, the first entry of an EPUB container.
pub open spec fn mimetype_name() -> Seq<u8> {
    seq![0x6du8, 0x69u8, 0x6du8, 0x65u8, 0x74u8, 0x79u8, 0x70u8, 0x65u8]
}

/// The number of leading bytes of a ZIP container that are searched for
/// entry names: the first 4 KB.
pub open spec fn zip_window(input: Seq<u8>) -> int {
    if input.len() < 4096 {
        input.len() as int
    } else {
        4096
    }
}

/// The lowercase of a prefix begins with the lowercase of the first char,
/// for an ASCII first char.
proof fn lemma_lower_upto_first(t: Seq<char>, n: int)
    requires
        1 <= n <= t.len(),
        is_ascii(t[0]),
    ensures
        lower_upto(t, n).len() >= 1,
        lower_upto(t, n)[0] == ascii_lower(t[0]),
    decreases n,
{
    if n > 1 {
        lemma_lower_upto_first(t, n - 1);
        let p = lower_upto(t, n - 1);
        assert((p + lowercase(t[n - 1]))[0] == p[0]);
    } else {
        assert(lower_upto(t, 0) =~= Seq::<char>::empty());
        assert(lower_upto(t, 1) =~= seq![ascii_lower(t[0])]);
    }
}

/// Bullets mark Markdown: a text that does not open with `<` (its first
/// non-blank char being ASCII) and one of whose first 40 lines, trimmed at
/// its start, begins with `- ` or `* ` is Markdown.
pub proof fn bullets_mark_markdown(text: Seq<char>)
    requires
        trim_start(text).len() > 0,
        is_ascii(trim_start(text)[0]),
        trim_start(text)[0] != '<',
        exists|i: int| 0 <= i < 40 && 0 <= i < text_lines(text).len() && (starts_with(trim_start(#[trigger] text_lines(text)[i]), "- "@)
            || starts_with(trim_start(text_lines(text)[i]), "* "@)),
    ensures
        text_format(text) == DocumentFormat::Markdown,
{
    let t = trim_start(text);
    let n = if t.len() < 32 { t.len() as int } else { 32 };
    lemma_lower_upto_first(t, n);
    let lp = lower_prefix(t);
    assert(lp[0] != '<');
    reveal_strlit("<!doctype html");
    reveal_strlit("<html");
    assert(!starts_with(lp, "<!doctype html"@)) by {
        if starts_with(lp, "<!doctype html"@) {
            assert(lp.take(14)[0] == lp[0]);
        }
    }
    assert(!starts_with(lp, "<html"@)) by {
        if starts_with(lp, "<html"@) {
            assert(lp.take(5)[0] == lp[0]);
        }
    }
    assert(!html_opener(t));
    let i = choose|i: int| 0 <= i < 40 && 0 <= i < text_lines(text).len() && (starts_with(trim_start(#[trigger] text_lines(text)[i]), "- "@)
        || starts_with(trim_start(text_lines(text)[i]), "* "@));
    assert(markdown_line(trim_start(text_lines(text)[i])));
}

/// `input` begins with the bytes of `magic`.
fn starts_with_bytes(input: &[u8], magic: &[u8]) -> (r: bool)
    ensures
        r == bytes_start_with(input@, magic@),
{
    if magic.len() > input.len() {
        return false;
    }
    let mut i: usize = 0;
    while i < magic.len()
        invariant
            magic@.len() <= input@.len(),
            i <= magic@.len(),
            forall|j: int| 0 <= j < i ==> input@[j] == magic@[j],
        decreases magic@.len() - i,
    {
        if input[i] != magic[i] {
            assert(input@.take(magic@.len() as int)[i as int] != magic@[i as int]);
            return false;
        }
        i += 1;
    }
    assert(input@.take(magic@.len() as int) =~= magic@);
    true
}

/// Some window of `len` bytes of `input[..end]` equals `pat`.
pub open spec fn window_matches(input: Seq<u8>, end: int, len: int, pat: Seq<u8>) -> bool {
    &&& len == pat.len()
    &&& exists|i: int| 0 <= i && i + len <= end && #[trigger] input.subrange(i, i + len) == pat
}

/// Some window of `len` bytes of `input[..end]` equals `pat`.
fn any_window_eq(input: &[u8], end: usize, len: usize, pat: &[u8]) -> (r: bool)
    requires
        end <= input@.len(),
    ensures
        r == window_matches(input@, end as int, len as int, pat@),
{
    if len != pat.len() || len > end {
        return false;
    }
    let last = end - len;
    let mut i: usize = 0;
    while i <= last
        invariant
            len == pat@.len(),
            len <= end <= input@.len(),
            last == end - len,
            i <= last,
            forall|k: int| 0 <= k < i ==> #[trigger] input@.subrange(k, k + len) != pat@,
        decreases last - i,
    {
        let mut j: usize = 0;
        let mut same = true;
        while j < len
            invariant
                j <= len,
                len == pat@.len(),
                i + len <= end <= input@.len(),
                same == (forall|k: int| 0 <= k < j ==> input@[i + k] == pat@[k]),
            decreases len - j,
        {
            if input[i + j] != pat[j] {
                same = false;
            }
            j += 1;
        }
        if same {
            assert(input@.subrange(i as int, i + len) =~= pat@);
            return true;
        }
        assert(input@.subrange(i as int, i + len) != pat@) by {
            let k = choose|k: int| 0 <= k < len && input@[i + k] != pat@[k];
            assert(input@.subrange(i as int, i + len)[k] == input@[i + k]);
        }
        if i == last {
            return false;
        }
        i += 1;
    }
    false
}

/// The format of a decoded text: HTML by its opening or a closing tag near
/// the start, Markdown by the markers of its first 40 lines, else plain text.
pub fn detect_text_format(text: &str) -> (f: DocumentFormat)
    ensures
        f == text_format(text@),
{
    let chars = chars_of(text);
    let s = chars.as_slice();
    let n = s.len();
    let (ta, _tb) = trim_bounds(s, 0, n);
    assert(s@.subrange(0, n as int) =~= s@);
    let ghost t = trim_start(s@);
    assert(t =~= s@.subrange(ta as int, n as int));
    if ta == n {
        return DocumentFormat::PlainText;
    }
    // The lowercase of the first 32 chars.
    let lim = if n - ta < 32 { n - ta } else { 32 };
    let mut lower: Vec<char> = Vec::new();
    let mut i: usize = 0;
    while i < lim
        invariant
            ta < n == s@.len(),
            lim <= n - ta,
            i <= lim,
            t == s@.subrange(ta as int, n as int),
            lower@ == lower_upto(t, i as int),
        decreases lim - i,
    {
        let m = char_lowercase(s[ta + i]);
        let ghost before = lower@;
        let mut j: usize = 0;
        while j < m.len()
            invariant
                j <= m@.len(),
                lower@ == before + m@.take(j as int),
            decreases m@.len() - j,
        {
            lower.push(m[j]);
            j += 1;
            assert(lower@ =~= before + m@.take(j as int));
        }
        assert(m@.take(j as int) =~= m@);
        i += 1;
    }
    let doctype = chars_of("<!doctype html");
    let html = chars_of("<html");
    proof {
        reveal_strlit("<!doctype html");
        reveal_strlit("<html");
    }
    assert(lower@.subrange(0, lower@.len() as int) =~= lower@);
    if has_prefix(lower.as_slice(), 0, lower.len(), doctype.as_slice()) || has_prefix(
        lower.as_slice(),
        0,
        lower.len(),
        html.as_slice(),
    ) {
        return DocumentFormat::Html;
    }
    if s[ta] == '<' {
        // The chars within the first 2048 bytes.
        let k = probe_len(s);
        let pat = chars_of("</");
        proof {
            reveal_strlit("</");
        }
        let found = find_from(s, 0, k, pat.as_slice());
        proof {
            assert(s@.take(k as int).subrange(0, k as int) =~= s@.take(k as int));
            match found {
                Some(p) => {
                    assert(occurs_at(s@.take(k as int), "</"@, p as int));
                    assert(has_html_tag(s@));
                },
                None => {
                    if has_html_tag(s@) {
                        let kk = choose|kk: int| #[trigger] probe_end(s@, kk) && contains(s@.take(kk), "</"@);
                        lemma_probe_end_unique(s@, kk, k as int);
                        let q = choose|q: int| occurs_at(s@.take(kk), "</"@, q);
                        assert(!occurs_at(s@.take(k as int), pat@, q));
                        assert(false);
                    }
                },
            }
        }
        if found.is_some() {
            return DocumentFormat::Html;
        }
    }
    if markdown_lines(s) {
        DocumentFormat::Markdown
    } else {
        DocumentFormat::PlainText
    }
}

/// Whether one of the first 40 lines of `s` marks Markdown.
fn markdown_lines(s: &[char]) -> (r: bool)
    ensures
        r == looks_like_markdown(s@),
{
    let spans = lines_of(s);
    let mut i: usize = 0;
    let fence = chars_of("```");
    let dash = chars_of("- ");
    let star = chars_of("* ");
    let link = chars_of("](");
    proof {
        reveal_strlit("```");
        reveal_strlit("- ");
        reveal_strlit("* ");
        reveal_strlit("](");
    }
    while i < spans.len() && i < 40
        invariant
            spans@ == line_spans(s@),
            forall|q: int| #![trigger spans@[q]] 0 <= q < spans@.len() ==> spans@[q].0 <= spans@[q].1 <= s@.len(),
            i <= spans@.len(),
            fence@ == "```"@,
            dash@ == "- "@,
            star@ == "* "@,
            link@ == "]("@,
            forall|j: int| 0 <= j < i ==> !markdown_line(trim_start(#[trigger] text_lines(s@)[j])),
        decreases spans@.len() - i,
    {
        proof {
            reveal_strlit("```");
            reveal_strlit("- ");
            reveal_strlit("* ");
            reveal_strlit("](");
        }
        let (a, b) = spans[i];
        let (la, _lb) = trim_bounds(s, a, b);
        let ghost l = s@.subrange(la as int, b as int);
        assert(text_lines(s@)[i as int] == s@.subrange(a as int, b as int));
        let heading = b - la > 1 && s[la] == '#' && (s[la + 1] == ' ' || ('0' <= s[la + 1] && s[la + 1] <= '9'));
        let fenced = has_prefix(s, la, b, fence.as_slice());
        let bullet = has_prefix(s, la, b, dash.as_slice()) || has_prefix(s, la, b, star.as_slice());
        let found_link = find_from(s, la, b, link.as_slice());
        let linked = match found_link {
            Some(_) => crate::textutil::has_char(s, la, b, '['),
            None => false,
        };
        proof {
            assert(l == trim_start(text_lines(s@)[i as int]));
            if heading {
                assert(l[0] == s@[la as int] && l[1] == s@[la + 1]);
            }
            let hs = s@.take(b as int);
            match found_link {
                Some(p) => {
                    assert(hs.subrange(p as int, p + 2) =~= l.subrange(p - la, p - la + 2));
                    assert(occurs_at(l, "]("@, p - la));
                },
                None => {
                    if contains(l, "]("@) {
                        let q = choose|q: int| occurs_at(l, "]("@, q);
                        assert(hs.subrange(q + la, q + la + 2) =~= l.subrange(q, q + 2));
                        assert(occurs_at(hs, link@, q + la));
                        assert(false);
                    }
                },
            }
        }
        if heading || fenced || bullet || linked {
            return true;
        }
        proof {
            assert(!(l.len() > 1 && l[0] == '#' && (l[1] == ' ' || is_digit(l[1])))) by {
                if l.len() > 1 {
                    assert(l[0] == s@[la as int] && l[1] == s@[la + 1]);
                }
            }
        }
        i += 1;
    }
    false
}

/// Sniff the format of `input`: magic bytes for PDF and ZIP containers
/// (reported as DOCX), else heuristics on the text decoded with invalid
/// UTF-8 replaced. Empty input is `Unknown`.
pub fn detect_format(input: &[u8]) -> (f: DocumentFormat)
    ensures
        f == detected_format(input@),
{
    if input.len() == 0 {
        return DocumentFormat::Unknown;
    }
    let pdf: [u8; 5] = [0x25, 0x50, 0x44, 0x46, 0x2d];
    let zip: [u8; 4] = [0x50, 0x4b, 0x03, 0x04];
    assert(pdf@ =~= pdf_magic());
    assert(zip@ =~= zip_magic());
    if starts_with_bytes(input, pdf.as_slice()) {
        return DocumentFormat::Pdf;
    }
    if starts_with_bytes(input, zip.as_slice()) {
        // An EPUB names a "mimetype" entry, a DOCX a "word/" folder; a ZIP
        // container with neither is reported as DOCX.
        let window = if input.len() < 4096 { input.len() } else { 4096 };
        let mimetype: [u8; 8] = [0x6d, 0x69, 0x6d, 0x65, 0x74, 0x79, 0x70, 0x65];
        let word: [u8; 5] = [0x77, 0x6f, 0x72, 0x64, 0x2f];
        assert(mimetype@ =~= mimetype_name());
        if any_window_eq(input, window, 8, mimetype.as_slice()) {
            return DocumentFormat::Epub;
        }
        if any_window_eq(input, window, 5, word.as_slice()) {
            return DocumentFormat::Docx;
        }
        return DocumentFormat::Docx;
    }
    let text = decode_lossy(input);
    detect_text_format(text.as_str())
}

/// The number of chars of `s` within its first 2048 bytes: the probe stops
/// at the last char boundary at or below byte 2048.
fn probe_len(s: &[char]) -> (k: usize)
    ensures
        probe_end(s@, k as int),
{
    let n = s.len();
    let mut k: usize = 0;
    let mut acc: usize = 0;
    let mut full = false;
    while k < n && !full
        invariant
            k <= n == s@.len(),
            acc == byte_len(s@.take(k as int)),
            acc <= 2048,
            full ==> k < n && byte_len(s@.take(k + 1)) > 2048,
        decreases 2 * (n - k) + if full { 0int } else { 1int },
    {
        proof {
            lemma_byte_len_step(s@, k as int);
        }
        let w = char_width(s[k]);
        if acc + w > 2048 {
            full = true;
        } else {
            acc = acc + w;
            k += 1;
        }
    }
    proof {
        assert(s@.take(n as int) =~= s@);
    }
    k
}

/// The prefix at which the probe stops is unique.
proof fn lemma_probe_end_unique(text: Seq<char>, a: int, b: int)
    requires
        probe_end(text, a),
        probe_end(text, b),
    ensures
        a == b,
{
    if a < b {
        lemma_byte_len_prefix(text, a + 1, b);
    } else if b < a {
        lemma_byte_len_prefix(text, b + 1, a);
    }
}

} // verus!
