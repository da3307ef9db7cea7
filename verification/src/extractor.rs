//! The extraction pipeline: tables, key-value pairs and typed entities, by
//! the local heuristics, as one structured result.

use vstd::prelude::*;
use crate::document::{doc_texts, join_blank, Document};
use crate::entities::{entity_view, extract_all, kept_matches, match_entity, Candidate, Entity, EntityType};
use crate::heuristics::{fields_view, kv_fields, LayoutAnalyzer};
use crate::models::{ExtractionOptions, ExtractionResult, KeyValueSet, Table};
use crate::parse::doc_view;
use crate::tables::{table_view, tables_from, TableDetector};
use crate::textutil::text_lines;

verus! {

/// The tables that extraction gives.
pub open spec fn extracted_tables(text: Seq<char>, opts: ExtractionOptions) -> Seq<(Seq<Seq<Seq<char>>>, bool, int)> {
    if opts.extract_tables {
        tables_from(text_lines(text), 0, 2)
    } else {
        Seq::empty()
    }
}

/// The key-value fields that extraction gives.
pub open spec fn extracted_fields(text: Seq<char>, opts: ExtractionOptions) -> Seq<(Seq<char>, Seq<char>, u32)> {
    if opts.extract_key_values {
        kv_fields(text)
    } else {
        Seq::empty()
    }
}

/// The entities that extraction gives.
pub open spec fn extracted_entities(text: Seq<char>, opts: ExtractionOptions) -> Seq<(EntityType, usize, usize, Seq<char>)> {
    if opts.extract_entities {
        kept_matches(text).map_values(|c: Candidate| match_entity(text, c))
    } else {
        Seq::empty()
    }
}

/// The number of fields, as `usize` arithmetic gives it.
pub open spec fn wrapped_count(a: nat, b: nat) -> int {
    if a + b > usize::MAX {
        a + b - usize::MAX - 1
    } else {
        (a + b) as int
    }
}

/// `r` is the heuristic extraction of `text`: the tables, fields and
/// entities asked for, the field count, full confidence, provider
/// `heuristic`.
pub open spec fn heuristic_result(text: Seq<char>, opts: ExtractionOptions, r: ExtractionResult) -> bool {
    &&& r.tables@.map_values(|t: Table| table_view(t)) == extracted_tables(text, opts)
    &&& fields_view(r.key_values.fields@) == extracted_fields(text, opts)
    &&& r.entities@.map_values(|e: Entity| entity_view(e)) == extracted_entities(text, opts)
    &&& r.field_count == wrapped_count(r.key_values.fields@.len(), r.entities@.len())
    &&& r.confidence == 1000
    &&& r.provider@ == "heuristic"@
}

/// Run the full extraction pipeline on plain text.
pub fn extract(text: &str, opts: &ExtractionOptions) -> (r: ExtractionResult)
    ensures
        heuristic_result(text@, *opts, r),
{
    let analyzer = LayoutAnalyzer::new();
    let tables = if opts.extract_tables {
        TableDetector::new().detect(text)
    } else {
        Vec::new()
    };
    let key_values = if opts.extract_key_values {
        analyzer.extract_key_values(text)
    } else {
        KeyValueSet::default()
    };
    let entities = if opts.extract_entities {
        extract_all(text)
    } else {
        Vec::new()
    };
    assert(tables@.map_values(|t: Table| table_view(t)) =~= extracted_tables(text@, *opts));
    assert(fields_view(key_values.fields@) =~= extracted_fields(text@, *opts));
    assert(entities@.map_values(|e: Entity| entity_view(e)) =~= extracted_entities(text@, *opts));
    let r = ExtractionResult {
        tables,
        key_values,
        entities,
        field_count: 0,
        confidence: 1000,
        provider: "heuristic".to_owned(),
    };
    r.finalized()
}

/// Run extraction on the full text of a parsed document.
pub fn extract_doc(doc: &Document, opts: &ExtractionOptions) -> (r: ExtractionResult)
    ensures
        heuristic_result(join_blank(doc_texts(doc_view(*doc))), *opts, r),
{
    extract(doc.full_text().as_str(), opts)
}

} // verus!
