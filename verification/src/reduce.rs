//! Helpers of document reduction: reading a format hint and rendering a
//! summary with its key points.

use vstd::prelude::*;
use crate::document::DocumentFormat;
use crate::textutil::{chars_of, lowercase_string, str_lowercase, string_from_chars, strs_view, trim, trim_bounds};

verus! {

/// How a reduced summary is rendered.
#[derive(Debug, Clone, Copy, PartialEq, Eq, Structural)]
pub enum OutputFormat {
    PlainText,
    Markdown,
    Json,
}

/// The format that a lowercase hint names.
pub open spec fn hint_format(lower: Seq<char>) -> Option<DocumentFormat> {
    if lower == "txt"@ || lower == "text"@ || lower == "plaintext"@ {
        Some(DocumentFormat::PlainText)
    } else if lower == "md"@ || lower == "markdown"@ {
        Some(DocumentFormat::Markdown)
    } else if lower == "html"@ || lower == "htm"@ {
        Some(DocumentFormat::Html)
    } else if lower == "pdf"@ {
        Some(DocumentFormat::Pdf)
    } else if lower == "docx"@ {
        Some(DocumentFormat::Docx)
    } else if lower == "epub"@ {
        Some(DocumentFormat::Epub)
    } else {
        None
    }
}

/// Whether a string is the given one.
fn is(s: &String, lit: &str) -> (r: bool)
    ensures
        r == (s@ == lit@),
{
    *s == lit.to_owned()
}

/// The format that a hint names (`txt`, `md`, `html`, ... in any case).
pub fn parse_format_hint(hint: &str) -> (r: Option<DocumentFormat>)
    ensures
        r == hint_format(str_lowercase(hint@)),
{
    let l = lowercase_string(hint);
    if is(&l, "txt") || is(&l, "text") || is(&l, "plaintext") {
        Some(DocumentFormat::PlainText)
    } else if is(&l, "md") || is(&l, "markdown") {
        Some(DocumentFormat::Markdown)
    } else if is(&l, "html") || is(&l, "htm") {
        Some(DocumentFormat::Html)
    } else if is(&l, "pdf") {
        Some(DocumentFormat::Pdf)
    } else if is(&l, "docx") {
        Some(DocumentFormat::Docx)
    } else if is(&l, "epub") {
        Some(DocumentFormat::Epub)
    } else {
        None
    }
}

/// The key points `kps[..n]` as a list, one `- ` line each.
pub open spec fn bullets(kps: Seq<Seq<char>>, n: int) -> Seq<char>
    decreases n,
{
    if n <= 0 {
        Seq::empty()
    } else {
        bullets(kps, n - 1) + "- "@ + kps[n - 1] + seq!['\n']
    }
}

/// A summary rendered with its key points in the given format.
pub open spec fn rendered(summary: Seq<char>, kps: Seq<Seq<char>>, format: OutputFormat) -> Seq<char> {
    match format {
        OutputFormat::PlainText => if kps.len() == 0 {
            summary
        } else {
            summary + "\n\nKey points:\n"@ + bullets(kps, kps.len() as int)
        },
        OutputFormat::Markdown => trim(
            trim(summary) + if kps.len() == 0 {
                Seq::empty()
            } else {
                "\n\n**Key points**\n\n"@ + bullets(kps, kps.len() as int)
            },
        ),
        OutputFormat::Json => summary,
    }
}

/// `out` with the chars of `s` after it.
fn append(out: &mut Vec<char>, s: &str)
    ensures
        final(out)@ == old(out)@ + s@,
{
    let cs = chars_of(s);
    let mut i: usize = 0;
    while i < cs.len()
        invariant
            i <= cs@.len(),
            out@ == old(out)@ + cs@.take(i as int),
        decreases cs@.len() - i,
    {
        out.push(cs[i]);
        i += 1;
        assert(out@ =~= old(out)@ + cs@.take(i as int));
    }
    assert(cs@.take(i as int) =~= cs@);
}

/// `out` with the key points after it as a list.
fn append_bullets(out: &mut Vec<char>, key_points: &[String])
    ensures
        final(out)@ == old(out)@ + bullets(strs_view(key_points@), key_points@.len() as int),
{
    let ghost kps = strs_view(key_points@);
    let mut i: usize = 0;
    while i < key_points.len()
        invariant
            kps == strs_view(key_points@),
            i <= key_points@.len(),
            out@ == old(out)@ + bullets(kps, i as int),
        decreases key_points@.len() - i,
    {
        append(out, "- ");
        append(out, key_points[i].as_str());
        out.push('\n');
        assert(kps[i as int] == key_points@[i as int]@);
        assert(out@ =~= old(out)@ + bullets(kps, i + 1));
        i += 1;
    }
}

/// A summary rendered with its key points: plain text with a `Key points:`
/// list, Markdown with a bold heading (trimmed), or, for JSON, the summary
/// alone.
pub fn render(summary: &str, key_points: &[String], format: OutputFormat) -> (r: String)
    ensures
        r@ == rendered(summary@, strs_view(key_points@), format),
{
    let mut out: Vec<char> = Vec::new();
    match format {
        OutputFormat::PlainText => {
            append(&mut out, summary);
            if key_points.len() > 0 {
                append(&mut out, "\n\nKey points:\n");
                append_bullets(&mut out, key_points);
            }
            assert(out@ =~= rendered(summary@, strs_view(key_points@), format));
            string_from_chars(out.as_slice())
        },
        OutputFormat::Markdown => {
            let cs = chars_of(summary);
            assert(cs@.subrange(0, cs@.len() as int) =~= cs@);
            let (a, b) = trim_bounds(cs.as_slice(), 0, cs.len());
            let mut i = a;
            while i < b
                invariant
                    a <= i <= b <= cs@.len(),
                    out@ == cs@.subrange(a as int, i as int),
                decreases b - i,
            {
                out.push(cs[i]);
                i += 1;
                assert(out@ =~= cs@.subrange(a as int, i as int));
            }
            if key_points.len() > 0 {
                append(&mut out, "\n\n**Key points**\n\n");
                append_bullets(&mut out, key_points);
            }
            assert(out@ =~= trim(summary@) + if key_points@.len() == 0 {
                Seq::empty()
            } else {
                "\n\n**Key points**\n\n"@ + bullets(strs_view(key_points@), key_points@.len() as int)
            });
            assert(out@.subrange(0, out@.len() as int) =~= out@);
            let (c, d) = trim_bounds(out.as_slice(), 0, out.len());
            string_from_chars(vstd::slice::slice_subrange(out.as_slice(), c, d))
        },
        OutputFormat::Json => summary.to_owned(),
    }
}

} // verus!
