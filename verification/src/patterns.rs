//! The regular expressions of the extractor, and the one call that runs them.

use vstd::prelude::*;
use crate::textutil::is_boundary;

verus! {

/// Email addresses.
pub const EMAIL_PATTERN: &'static str = "[A-Za-z0-9._%+-]+@[A-Za-z0-9.-]+\\.[A-Za-z]{2,}";

/// http(s) URLs.
pub const URL_PATTERN: &'static str = "https?://[A-Za-z0-9.\\-/_?=&%#:+~]+";

/// YYYY-MM-DD, DD/MM/YYYY, MM/DD/YYYY, "Jan 15, 2024", "15 January 2024".
pub const DATE_PATTERN: &'static str = "\\b(\\d{4}-\\d{2}-\\d{2}|\\d{1,2}[/-]\\d{1,2}[/-]\\d{2,4}|(?:Jan|Feb|Mar|Apr|May|Jun|Jul|Aug|Sep|Oct|Nov|Dec)[a-z]*\\.?\\s+\\d{1,2},?\\s+\\d{4}|\\d{1,2}\\s+(?:January|February|March|April|May|June|July|August|September|October|November|December)\\s+\\d{4})\\b";

/// Phone numbers.
pub const PHONE_PATTERN: &'static str = "\\+?\\d{1,3}?[ .-]?\\(?\\d{2,4}\\)?[ .-]?\\d{3,4}[ .-]?\\d{3,4}\\b";

/// Monetary amounts, by currency sign or code.
pub const MONEY_PATTERN: &'static str = "[$\u{20ac}\u{a3}\u{a5}]\\s?\\d{1,3}(?:,\\d{3})*(?:\\.\\d{2})?|\\d{1,3}(?:,\\d{3})*(?:\\.\\d{2})?\\s?(?:USD|EUR|GBP|JPY)";

/// Percentages.
pub const PERCENT_PATTERN: &'static str = "\\d+(?:\\.\\d+)?%";

/// "INV-2024-001", "#12345", "Order #ABC123".
pub const IDENTIFIER_PATTERN: &'static str = "\\b[A-Z]{2,}[-#]\\d{2,}[A-Z0-9-]*|#?[A-Z]{2,}\\d{4,}\\b";

/// Plain numbers.
pub const NUMBER_PATTERN: &'static str = "\\b\\d[\\d,]*(?:\\.\\d+)?\\b";

/// The gap between two space-aligned table columns: two or more spaces.
pub const COLUMN_GAP_PATTERN: &'static str = " {2,}";

/// The patterns of this library; each one compiles.
pub open spec fn known_pattern(p: Seq<char>) -> bool {
    ||| p == EMAIL_PATTERN@
    ||| p == URL_PATTERN@
    ||| p == DATE_PATTERN@
    ||| p == PHONE_PATTERN@
    ||| p == MONEY_PATTERN@
    ||| p == PERCENT_PATTERN@
    ||| p == IDENTIFIER_PATTERN@
    ||| p == NUMBER_PATTERN@
    ||| p == COLUMN_GAP_PATTERN@
}

/// The byte spans `(start, end)` of the successive non-overlapping matches
/// of `pattern` in `text` (`regex::Regex::find_iter`).
pub uninterp spec fn regex_spans(pattern: Seq<char>, text: Seq<char>) -> Seq<(usize, usize)>;

/// `regex::Regex::new(pattern)` then `find_iter(text)`, each match taken as
/// its byte span. The regex crate documents that matches come in order and do
/// not overlap, and that their offsets fall on char boundaries; which
/// matches there are is named, not stated. A match is text that the pattern
/// describes, and each pattern of this library describes only non-empty text
/// (each requires at least one char: a class or a literal that is not
/// optional), so no match is empty.
#[verifier::external_body]
pub(crate) fn find_spans(pattern: &str, text: &str) -> (r: Vec<(usize, usize)>)
    requires
        known_pattern(pattern@),
    ensures
        r@ == regex_spans(pattern@, text@),
        forall|i: int|
            #![trigger r@[i]]
            0 <= i < r@.len() ==> r@[i].0 < r@[i].1 && is_boundary(text@, r@[i].0 as int)
                && is_boundary(text@, r@[i].1 as int),
        forall|i: int, j: int| #![trigger r@[i], r@[j]] 0 <= i < j < r@.len() ==> r@[i].1 <= r@[j].0,
{
    regex::Regex::new(pattern).unwrap().find_iter(text).map(|m| (m.start(), m.end())).collect()
}

} // verus!
