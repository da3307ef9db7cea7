//! The plain-text parser: paragraphs split on blank lines.

use vstd::prelude::*;
use crate::document::{Document, DocumentFormat};
use crate::parse::{doc_from_text, doc_view, text_doc, ParseError};
use crate::textutil::{decode_lossy, utf8_lossy};

verus! {

/// Parse bytes as plain text (invalid UTF-8 replaced).
pub fn parse(input: &[u8]) -> (r: Result<Document, ParseError>)
    ensures
        r matches Ok(d) && doc_view(d) == text_doc(DocumentFormat::PlainText, utf8_lossy(input@)),
{
    let text = decode_lossy(input);
    Ok(doc_from_text(DocumentFormat::PlainText, text.as_str()))
}

} // verus!
