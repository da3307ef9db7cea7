//! Document-to-data extraction from raw bytes: detect the format, parse,
//! then run the extraction pipeline on the document's text.

use vstd::prelude::*;
use crate::detect::{detect_format, detected_format};
use crate::document::{doc_texts, join_blank, Document, DocumentFormat};
use crate::error::CoreError;
use crate::extractor::heuristic_result;
use crate::models::{ExtractionOptions, ExtractionResult};
use crate::parse::{format_doc, parse_format, parsed_as};
use crate::textutil::utf8_lossy;

verus! {

/// `r` is what extracting from `input` parsed as `format` gives: the
/// heuristic extraction of the document's text, or the parse error.
pub open spec fn extracted_as(format: DocumentFormat, input: Seq<u8>, opts: ExtractionOptions, r: Result<ExtractionResult, CoreError>) -> bool {
    match r {
        Ok(res) => input.len() > 0 && (format_doc(format, utf8_lossy(input)) matches Some(dv)
            && heuristic_result(join_blank(doc_texts(dv)), opts, res)),
        Err(CoreError::Parse(e)) => parsed_as(format, input, Err(e)),
        Err(_) => false,
    }
}

/// Extract structured data from raw document bytes, parsed in the format
/// detected. (The provider label carries no processing time here.)
pub fn extract(input: &[u8], opts: ExtractionOptions) -> (r: Result<ExtractionResult, CoreError>)
    ensures
        extracted_as(detected_format(input@), input@, opts, r),
{
    let fmt = detect_format(input);
    match parse_format(fmt, input) {
        Ok(doc) => Ok(crate::extractor::extract_doc(&doc, &opts)),
        Err(e) => Err(CoreError::Parse(e)),
    }
}

/// Extract structured data from plain text (no parsing step).
pub fn extract_text(text: &str, opts: ExtractionOptions) -> (r: Result<ExtractionResult, CoreError>)
    ensures
        r matches Ok(res) && heuristic_result(text@, opts, res),
{
    Ok(crate::extractor::extract(text, &opts))
}

} // verus!
