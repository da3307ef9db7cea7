//! Parsing bytes into a [`Document`]: the shared plain-text builder, the
//! plain-text parser, and dispatch by format.

use vstd::prelude::*;
use crate::document::{Block, Document, DocumentFormat, Section};
use crate::detect::{detect_format, detected_format};
use crate::html::html_doc;
use crate::markdown::md_doc;
use crate::textutil::{
    utf8_lossy, chars_of, has_prefix, line_spans, lines_of, string_from_chars, text_lines, trim, trim_bounds,
    starts_with,
};

verus! {

/// A block as plain values.
pub enum BlockView {
    Heading(u8, Seq<char>),
    Paragraph(Seq<char>),
    List(Seq<Seq<char>>),
    Code(Option<Seq<char>>, Seq<char>),
    Quote(Seq<char>),
    Plain(Seq<char>),
}

/// A block as plain values.
pub open spec fn block_view(b: Block) -> BlockView {
    match b {
        Block::Heading { level, text } => BlockView::Heading(level, text@),
        Block::Paragraph { text } => BlockView::Paragraph(text@),
        Block::List { items } => BlockView::List(items@.map_values(|s: String| s@)),
        Block::Code { language, text } => BlockView::Code(
            match language {
                Some(l) => Some(l@),
                None => None,
            },
            text@,
        ),
        Block::Quote { text } => BlockView::Quote(text@),
        Block::Plain { text } => BlockView::Plain(text@),
    }
}

/// Blocks as plain values.
pub open spec fn blocks_view(bs: Seq<Block>) -> Seq<BlockView> {
    bs.map_values(|b: Block| block_view(b))
}

/// An optional string as chars.
pub open spec fn opt_view(o: Option<String>) -> Option<Seq<char>> {
    match o {
        Some(s) => Some(s@),
        None => None,
    }
}

/// A section as heading, level and blocks.
pub open spec fn section_view(s: Section) -> (Option<Seq<char>>, u8, Seq<BlockView>) {
    (opt_view(s.heading), s.level, blocks_view(s.blocks@))
}

/// A document as title, format and sections.
pub open spec fn doc_view(d: Document) -> (Option<Seq<char>>, DocumentFormat, Seq<(Option<Seq<char>>, u8, Seq<BlockView>)>) {
    (opt_view(d.title), d.format, d.sections@.map_values(|s: Section| section_view(s)))
}

/// Error returned by any parser.
#[derive(Debug)]
pub enum ParseError {
    UnsupportedFormat(DocumentFormat),
    EmptyInput,
    Other(String),
}

/// The name of a format, as `Debug` writes it.
pub open spec fn format_name(f: DocumentFormat) -> Seq<char> {
    match f {
        DocumentFormat::PlainText => "PlainText"@,
        DocumentFormat::Markdown => "Markdown"@,
        DocumentFormat::Html => "Html"@,
        DocumentFormat::Pdf => "Pdf"@,
        DocumentFormat::Docx => "Docx"@,
        DocumentFormat::Epub => "Epub"@,
        DocumentFormat::Unknown => "Unknown"@,
    }
}

/// The name of a format, as `Debug` writes it.
pub fn format_label(f: DocumentFormat) -> (r: &'static str)
    ensures
        r@ == format_name(f),
{
    match f {
        DocumentFormat::PlainText => "PlainText",
        DocumentFormat::Markdown => "Markdown",
        DocumentFormat::Html => "Html",
        DocumentFormat::Pdf => "Pdf",
        DocumentFormat::Docx => "Docx",
        DocumentFormat::Epub => "Epub",
        DocumentFormat::Unknown => "Unknown",
    }
}

/// The message of a parse error.
pub open spec fn parse_error_message(e: ParseError) -> Seq<char> {
    match e {
        ParseError::UnsupportedFormat(f) => "unsupported format: "@ + format_name(f)
            + " (enable the matching cargo feature)"@,
        ParseError::EmptyInput => "input was empty"@,
        ParseError::Other(m) => "parsing failed: "@ + m@,
    }
}

impl ParseError {
    /// The error as a message.
    pub fn message(&self) -> (r: String)
        ensures
            r@ == parse_error_message(*self),
    {
        match self {
            ParseError::UnsupportedFormat(f) => {
                let mut s = "unsupported format: ".to_owned();
                s.append(format_label(*f));
                s.append(" (enable the matching cargo feature)");
                s
            },
            ParseError::EmptyInput => "input was empty".to_owned(),
            ParseError::Other(m) => {
                let mut s = "parsing failed: ".to_owned();
                s.append(m.as_str());
                s
            },
        }
    }
}

/// The spans of the pieces of `s[i..]` between non-overlapping occurrences
/// of `"\n\n"`, the current piece having started at `st`.
pub open spec fn para_spans_from(s: Seq<char>, i: int, st: int) -> Seq<(usize, usize)>
    decreases s.len() - i,
{
    if i < 0 || i >= s.len() {
        seq![(st as usize, s.len() as usize)]
    } else if i + 1 < s.len() && s[i] == '\n' && s[i + 1] == '\n' {
        seq![(st as usize, i as usize)] + para_spans_from(s, i + 2, i + 2)
    } else {
        para_spans_from(s, i + 1, st)
    }
}

/// The spans of the pieces of `s` between occurrences of `"\n\n"`
/// (`str::split("\n\n")`).
pub open spec fn para_spans(s: Seq<char>) -> Seq<(usize, usize)> {
    para_spans_from(s, 0, 0)
}

/// The block of one trimmed, non-empty paragraph: a one-line `# ` paragraph
/// is a level-1 heading, anything else a paragraph.
pub open spec fn para_block(t: Seq<char>) -> BlockView {
    if line_spans(t).len() == 1 && starts_with(t, "# "@) {
        BlockView::Heading(1, t.skip(2))
    } else {
        BlockView::Paragraph(t)
    }
}

/// The blocks of the first `n` paragraph spans of `s`.
pub open spec fn para_blocks(s: Seq<char>, spans: Seq<(usize, usize)>, n: int) -> Seq<BlockView>
    decreases n,
{
    if n <= 0 {
        Seq::empty()
    } else {
        let prev = para_blocks(s, spans, n - 1);
        let t = trim(s.subrange(spans[n - 1].0 as int, spans[n - 1].1 as int));
        if t.len() == 0 {
            prev
        } else {
            prev.push(para_block(t))
        }
    }
}

/// The text of the last heading among `bs[..n]`.
pub open spec fn last_heading(bs: Seq<BlockView>, n: int) -> Option<Seq<char>>
    decreases n,
{
    if n <= 0 {
        None
    } else {
        match bs[n - 1] {
            BlockView::Heading(_, t) => Some(t),
            _ => last_heading(bs, n - 1),
        }
    }
}

proof fn lemma_last_heading_prefix(a: Seq<BlockView>, b: Seq<BlockView>, n: int)
    requires
        0 <= n <= a.len(),
        n <= b.len(),
        forall|i: int| 0 <= i < n ==> a[i] == b[i],
    ensures
        last_heading(a, n) == last_heading(b, n),
    decreases n,
{
    if n > 0 {
        lemma_last_heading_prefix(a, b, n - 1);
    }
}

/// The blocks of a text: its non-blank paragraphs, or else one plain block
/// of the whole text, trimmed.
pub open spec fn text_blocks(text: Seq<char>) -> Seq<BlockView> {
    let spans = para_spans(text);
    let bs = para_blocks(text, spans, spans.len() as int);
    if bs.len() == 0 {
        seq![BlockView::Plain(trim(text))]
    } else {
        bs
    }
}

/// The title of a text: its last heading, or else its first line trimmed,
/// unless blank.
pub open spec fn text_title(text: Seq<char>) -> Option<Seq<char>> {
    let bs = text_blocks(text);
    match last_heading(bs, bs.len() as int) {
        Some(t) => Some(t),
        None => if text_lines(text).len() > 0 && trim(text_lines(text)[0]).len() > 0 {
            Some(trim(text_lines(text)[0]))
        } else {
            None
        },
    }
}

/// The one-section document of a text.
pub open spec fn text_doc(format: DocumentFormat, text: Seq<char>) -> (Option<Seq<char>>, DocumentFormat, Seq<(Option<Seq<char>>, u8, Seq<BlockView>)>) {
    (text_title(text), format, seq![(None, 0u8, text_blocks(text))])
}

proof fn lemma_para_spans_bounds(s: Seq<char>, i: int, st: int)
    requires
        0 <= st <= i <= s.len(),
        s.len() <= usize::MAX,
    ensures
        forall|k: int| #![trigger para_spans_from(s, i, st)[k]] 0 <= k < para_spans_from(s, i, st).len()
            ==> para_spans_from(s, i, st)[k].0 <= para_spans_from(s, i, st)[k].1 <= s.len(),
        para_spans_from(s, i, st).len() >= 1,
    decreases s.len() - i,
{
    if i < s.len() {
        if i + 1 < s.len() && s[i] == '\n' && s[i + 1] == '\n' {
            lemma_para_spans_bounds(s, i + 2, i + 2);
            let r = para_spans_from(s, i + 2, i + 2);
            assert forall|k: int| #![trigger para_spans_from(s, i, st)[k]] 0 <= k < para_spans_from(s, i, st).len()
                implies para_spans_from(s, i, st)[k].0 <= para_spans_from(s, i, st)[k].1 <= s.len() by {
                if k > 0 {
                    assert(para_spans_from(s, i, st)[k] == r[k - 1]);
                }
            }
        } else {
            lemma_para_spans_bounds(s, i + 1, st);
        }
    }
}

/// The spans of the paragraphs of `s`.
pub(crate) fn split_paragraphs(s: &[char]) -> (r: Vec<(usize, usize)>)
    ensures
        r@ == para_spans(s@),
        forall|k: int| #![trigger r@[k]] 0 <= k < r@.len() ==> r@[k].0 <= r@[k].1 <= s@.len(),
{
    let mut v: Vec<(usize, usize)> = Vec::new();
    let mut st: usize = 0;
    let mut i: usize = 0;
    let _n = s.len();
    proof {
        lemma_para_spans_bounds(s@, 0, 0);
    }
    while i < s.len()
        invariant
            st <= i <= s@.len(),
            para_spans(s@) == v@ + para_spans_from(s@, i as int, st as int),
        decreases s@.len() - i,
    {
        if i + 1 < s.len() && s[i] == '\n' && s[i + 1] == '\n' {
            let ghost before = v@;
            v.push((st, i));
            assert(before + para_spans_from(s@, i as int, st as int) =~= v@ + para_spans_from(s@, i + 2, i + 2));
            i += 2;
            st = i;
        } else {
            i += 1;
        }
    }
    let ghost before = v@;
    v.push((st, s.len()));
    assert(before + para_spans_from(s@, i as int, st as int) =~= v@);
    v
}

/// Builds a single-section document from raw text: paragraphs split on
/// blank lines, one-line `# ` paragraphs as level-1 headings.
pub fn doc_from_text(format: DocumentFormat, text: &str) -> (d: Document)
    ensures
        doc_view(d) == text_doc(format, text@),
{
    let chars = chars_of(text);
    let s = chars.as_slice();
    let spans = split_paragraphs(s);
    let mut blocks: Vec<Block> = Vec::new();
    let mut title: Option<String> = None;
    let mut k: usize = 0;
    while k < spans.len()
        invariant
            chars@ == text@,
            s@ == chars@,
            spans@ == para_spans(s@),
            forall|q: int| #![trigger spans@[q]] 0 <= q < spans@.len() ==> spans@[q].0 <= spans@[q].1 <= s@.len(),
            k <= spans@.len(),
            blocks_view(blocks@) == para_blocks(s@, spans@, k as int),
            opt_view(title) == last_heading(blocks_view(blocks@), blocks@.len() as int),
        decreases spans@.len() - k,
    {
        let (a, b) = spans[k];
        let (ta, tb) = trim_bounds(s, a, b);
        if ta < tb {
            let t = vstd::slice::slice_subrange(s, ta, tb);
            let one_line = lines_of(t).len() == 1;
            let hash = chars_of("# ");
            proof {
                reveal_strlit("# ");
            }
            assert(t@.subrange(0, t@.len() as int) =~= t@);
            let ghost before = blocks_view(blocks@);
            if one_line && has_prefix(t, 0, t.len(), hash.as_slice()) {
                let h = string_from_chars(vstd::slice::slice_subrange(t, 2, t.len()));
                assert(t@.subrange(2, t@.len() as int) =~= t@.skip(2));
                let ghost hv = h@;
                blocks.push(Block::Heading { level: 1, text: h });
                title = Some(string_from_chars(vstd::slice::slice_subrange(t, 2, t.len())));
                assert(blocks_view(blocks@) =~= before.push(BlockView::Heading(1, hv)));
            } else {
                let p = string_from_chars(t);
                let ghost pv = p@;
                blocks.push(Block::Paragraph { text: p });
                assert(blocks_view(blocks@) =~= before.push(BlockView::Paragraph(pv)));
                proof {
                    lemma_last_heading_prefix(blocks_view(blocks@), before, before.len() as int);
                }
            }
        }
        k += 1;
    }
    let ghost bs = blocks_view(blocks@);
    if blocks.len() == 0 {
        let (ta, tb) = trim_bounds(s, 0, s.len());
        assert(s@.subrange(0, s@.len() as int) =~= s@);
        let p = string_from_chars(vstd::slice::slice_subrange(s, ta, tb));
        let ghost pv = p@;
        blocks.push(Block::Plain { text: p });
        assert(blocks_view(blocks@) =~= seq![BlockView::Plain(pv)]);
        assert(last_heading(blocks_view(blocks@), 1) == last_heading(blocks_view(blocks@), 0));
    }
    if title.is_none() {
        let lines = lines_of(s);
        if lines.len() > 0 {
            let (a, b) = lines[0];
            let (ta, tb) = trim_bounds(s, a, b);
            if ta < tb {
                title = Some(string_from_chars(vstd::slice::slice_subrange(s, ta, tb)));
            }
        }
    }
    let d = Document {
        title,
        format,
        sections: vec![Section { heading: None, level: 0, blocks }],
    };
    assert(d.sections@.map_values(|s: Section| section_view(s)) =~= seq![(None, 0u8, text_blocks(text@))]);
    d
}

/// The document that the parser for `format` makes of a non-empty text, or
/// `None` for the formats this build does not parse.
pub open spec fn format_doc(format: DocumentFormat, text: Seq<char>) -> Option<(Option<Seq<char>>, DocumentFormat, Seq<(Option<Seq<char>>, u8, Seq<BlockView>)>)> {
    match format {
        DocumentFormat::PlainText | DocumentFormat::Unknown => Some(text_doc(DocumentFormat::PlainText, text)),
        DocumentFormat::Markdown => Some(md_doc(text)),
        DocumentFormat::Html => Some(html_doc(text)),
        _ => None,
    }
}

/// `r` is what parsing `input` as `format` gives: `EmptyInput` for no bytes,
/// `UnsupportedFormat` for PDF, DOCX and EPUB, and otherwise the document of
/// the text (invalid UTF-8 replaced).
pub open spec fn parsed_as(format: DocumentFormat, input: Seq<u8>, r: Result<Document, ParseError>) -> bool {
    if input.len() == 0 {
        r matches Err(ParseError::EmptyInput)
    } else {
        match format_doc(format, utf8_lossy(input)) {
            Some(dv) => r matches Ok(d) && doc_view(d) == dv,
            None => r matches Err(ParseError::UnsupportedFormat(f)) && f == format,
        }
    }
}

/// Parse bytes given an explicit format. PDF, DOCX and EPUB are not parsed
/// by this build.
pub fn parse_format(format: DocumentFormat, input: &[u8]) -> (r: Result<Document, ParseError>)
    ensures
        parsed_as(format, input@, r),
{
    if input.len() == 0 {
        return Err(ParseError::EmptyInput);
    }
    match format {
        DocumentFormat::PlainText => crate::text::parse(input),
        DocumentFormat::Markdown => crate::markdown::parse(input),
        DocumentFormat::Html => crate::html::parse(input),
        DocumentFormat::Pdf => Err(ParseError::UnsupportedFormat(DocumentFormat::Pdf)),
        DocumentFormat::Docx => Err(ParseError::UnsupportedFormat(DocumentFormat::Docx)),
        DocumentFormat::Epub => Err(ParseError::UnsupportedFormat(DocumentFormat::Epub)),
        DocumentFormat::Unknown => crate::text::parse(input),
    }
}

/// Every parser implements this trait.
pub trait Parser {
    fn parse(&self, input: &[u8]) -> (r: Result<Document, ParseError>);

    fn supports(&self) -> DocumentFormat;
}

/// The default multi-format parser: parses by the hinted format, or else by
/// the detected one.
pub struct DefaultParser {
    pub format_hint: Option<DocumentFormat>,
}

impl Default for DefaultParser {
    fn default() -> (p: Self)
        ensures
            p.format_hint is None,
    {
        DefaultParser { format_hint: None }
    }
}

impl DefaultParser {
    /// The format that a non-empty input is parsed as.
    pub open spec fn format_for(&self, input: Seq<u8>) -> DocumentFormat {
        match self.format_hint {
            Some(f) => f,
            None => detected_format(input),
        }
    }
}

impl Parser for DefaultParser {
    fn supports(&self) -> (f: DocumentFormat)
        ensures
            f == DocumentFormat::Unknown,
    {
        DocumentFormat::Unknown
    }

    fn parse(&self, input: &[u8]) -> (r: Result<Document, ParseError>)
        ensures
            parsed_as(self.format_for(input@), input@, r),
    {
        if input.len() == 0 {
            return Err(ParseError::EmptyInput);
        }
        let fmt = match self.format_hint {
            Some(f) => f,
            None => detect_format(input),
        };
        parse_format(fmt, input)
    }
}

} // verus!
