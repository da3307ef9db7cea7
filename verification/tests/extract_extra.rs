use opendocu::embeddings::{fxhash, tokenize, EmbedError, LocalHashEmbedder};
use opendocu::entities::{extract_all, Entity, EntityType};
use opendocu::extract::extract;
use opendocu::extractor::{extract as extract_from_text, extract_doc};
use opendocu::models::ExtractionOptions;
use opendocu::parse::doc_from_text;
use opendocu::document::DocumentFormat;
use opendocu::tables::TableDetector;
use opendocu::vlm::{HttpVlm, VisionLanguageModel, VlmError};

#[test]
fn entities_come_in_order_without_overlap() {
    let e = extract_all("Pay $20 to a@b.co by 2024-01-02, see https://x.io/p 50%");
    assert!(!e.is_empty());
    for w in e.windows(2) {
        assert!(w[0].start <= w[1].start);
        assert!(!(w[1].start < w[0].end && w[0].start < w[1].end));
    }
    let email = e.iter().find(|x| x.entity_type == EntityType::Email).unwrap();
    assert_eq!(email.value, "a@b.co");
    assert_eq!(email.start, 11);
    assert_eq!(email.end, 17);
    assert_eq!(EntityType::Percent.as_str(), "percent");
}

#[test]
fn entity_offsets_are_bytes() {
    let e = Entity::new(EntityType::Number, "ü1".to_string(), 4);
    assert_eq!(e.end, 7);
    let found = extract_all("héé 123");
    let n = found.iter().find(|x| x.entity_type == EntityType::Number).unwrap();
    assert_eq!((n.start, n.end), (6, 9));
}

#[test]
fn tables_have_enough_rows() {
    let d = TableDetector { min_rows: 3 };
    assert!(d.detect("a  b\nc  d").is_empty());
    let t = d.detect("a  b\nc  d\ne  f");
    assert_eq!(t.len(), 1);
    assert_eq!(t[0].start_line, 1);
    assert_eq!(t[0].row_count(), 3);
}

#[test]
fn extraction_respects_options() {
    let opts = ExtractionOptions { extract_tables: false, extract_key_values: false, extract_entities: true, use_vlm: false };
    let r = extract_from_text("Name: Alice\nTotal: $5", &opts);
    assert!(r.key_values.fields.is_empty());
    assert!(r.tables.is_empty());
    assert_eq!(r.field_count, r.entities.len());
    assert_eq!(r.confidence, 1000);
    assert_eq!(r.provider, "heuristic");
}

#[test]
fn extract_doc_reads_full_text() {
    let d = doc_from_text(DocumentFormat::PlainText, "Name: Alice\n\nDate: 2024-01-01");
    let a = extract_doc(&d, &ExtractionOptions::default());
    let b = extract_from_text(&d.full_text(), &ExtractionOptions::default());
    assert_eq!(a.field_count, b.field_count);
    assert_eq!(a.key_values.fields.len(), 2);
}

#[test]
fn extract_reports_parse_errors() {
    match extract(b"", ExtractionOptions::default()) {
        Err(opendocu::error::CoreError::Parse(opendocu::parse::ParseError::EmptyInput)) => {}
        other => panic!("unexpected: {:?}", other.map(|r| r.field_count)),
    }
    assert!(matches!(extract(b"%PDF-1.4", ExtractionOptions::default()), Err(opendocu::error::CoreError::Parse(_))));
    assert!(extract(b"Date: 2024-01-01", ExtractionOptions::default()).is_ok());
}

#[test]
fn tokenizer_lowercases_and_drops_short_tokens() {
    assert_eq!(tokenize("Hello, World! a bb"), vec!["hello", "world", "bb"]);
    assert!(tokenize("").is_empty());
    assert_eq!(tokenize("é"), vec!["é"]);
}

#[test]
fn fxhash_is_fnv1a() {
    assert_eq!(fxhash(""), 0xcbf29ce484222325);
    assert_eq!(fxhash("a"), 0xaf63dc4c8601ec8c);
}

#[test]
fn token_features_pick_bucket_and_sign() {
    let e = LocalHashEmbedder::new(8);
    let f = e.token_features("cat cat").unwrap();
    assert_eq!(f.len(), 2);
    assert_eq!(f[0], f[1]);
    let h = fxhash("cat");
    assert_eq!(f[0], ((h % 8) as usize, (h >> 32) % 2 == 0));
    assert_eq!(LocalHashEmbedder::new(0).token_features("cat"), None);
    assert_eq!(LocalHashEmbedder::new(0).token_features(""), Some(vec![]));
    assert_eq!(LocalHashEmbedder::default().dim, 256);
}

#[test]
fn error_messages() {
    assert_eq!(EmbedError::Request("x".into()).message(), "embedding request failed: x");
    assert_eq!(EmbedError::NotConfigured("y".into()).message(), "embedding provider not configured: y");
    assert_eq!(VlmError::Parse("z".into()).message(), "VLM returned invalid response: z");
}

#[test]
fn http_vlm_needs_configuration() {
    let v = HttpVlm::new(None, Some("k".into()), None);
    assert!(!v.is_configured());
    assert!(matches!(v.extract_page(b"img", None), Err(VlmError::NotConfigured(_))));
    let w = HttpVlm::new(Some("http://e".into()), Some("k".into()), None);
    assert!(w.is_configured());
    assert!(matches!(w.extract_page(b"img", None), Err(VlmError::Request(_))));
}
