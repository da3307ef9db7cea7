use opendocu::chunk::{ChunkStrategy, Chunker};
use opendocu::docx::heading_level;
use opendocu::entities::extract_all;
use opendocu::heuristics::LayoutAnalyzer;
use opendocu::security::{FixedWindowRateLimiter, InMemoryRbac, RateLimiter, Rbac, Role};
use opendocu::tables::TableDetector;
use opendocu::vlm::{LocalVlm, VisionLanguageModel};

#[test]
fn acronym_keys_keep_their_capitals() {
    let kv = LayoutAnalyzer::new().extract_key_values("ID: 42\ncustomer name: Bob\nVAT number: X1");
    let keys: Vec<&str> = kv.fields.iter().map(|f| f.key.as_str()).collect();
    assert_eq!(keys, vec!["ID", "Customer Name", "VAT Number"]);
}

#[test]
fn aligned_keys_have_at_most_three_words() {
    let kv = LayoutAnalyzer::new().extract_key_values("Alpha Beta Gamma Delta  value");
    assert!(kv.fields.is_empty());
    let kv = LayoutAnalyzer::new().extract_key_values("Alpha Beta Gamma  value");
    assert_eq!(kv.fields.len(), 1);
    assert_eq!(kv.fields[0].key, "Alpha Beta Gamma");
    assert_eq!(kv.fields[0].value, "value");
}

#[test]
fn french_heading_styles_give_levels() {
    assert_eq!(heading_level("titre 1"), Some(1));
    assert_eq!(heading_level("Titre 3"), Some(3));
    assert_eq!(heading_level("Heading 2"), Some(2));
    assert_eq!(heading_level("Normal"), None);
}

#[test]
fn table_scan_resumes_after_the_separator_line() {
    let text = "Name  Qty\n----  ---\napple  1\npear  2";
    let tables = TableDetector { min_rows: 1 }.detect(text);
    assert_eq!(tables.len(), 1);
    assert_eq!(tables[0].rows.len(), 3);
    assert!(tables[0].has_header);
    assert_eq!(tables[0].start_line, 1);
    let two = "a  b\n---  ---\n1  2\n\nx  y\n3  4";
    let tables = TableDetector { min_rows: 1 }.detect(two);
    assert_eq!(tables.len(), 2);
    assert_eq!(tables[1].start_line, 5);
}

#[test]
fn whitespace_only_text_gives_no_chunks() {
    let text = "  \n\n\t \n   ";
    for strategy in [
        ChunkStrategy::Fixed { size: 3, overlap: 1 },
        ChunkStrategy::Sentence { max_tokens: 10 },
        ChunkStrategy::Paragraph,
        ChunkStrategy::Recursive { separators: vec!["\n".to_string(), " ".to_string()], max_tokens: 1 },
        ChunkStrategy::Semantic { target_tokens: 10 },
    ] {
        assert!(Chunker::chunk(text, &strategy).is_empty());
    }
}

#[test]
fn entity_spans_are_nonempty_and_disjoint() {
    let text = "Mail a@b.com or https://x.io/p on 2024-01-15: $1,250.00 and 12.5% of INV-2024-001, call 555 123 4567.";
    let e = extract_all(text);
    assert!(e.len() >= 5);
    for x in &e {
        assert!(x.start < x.end);
        assert_eq!(&text[x.start..x.end], x.value);
    }
    for w in e.windows(2) {
        assert!(w[0].end <= w[1].start);
    }
}

#[test]
fn rate_limit_counts_per_actor_and_window() {
    let mut l = FixedWindowRateLimiter::new(3600, 2);
    assert!(l.check("a").is_ok());
    assert_eq!(l.check_at("c", 7200), Ok(()));
    assert_eq!(l.check_at("c", 7201), Ok(()));
    assert_eq!(l.check_at("c", 7202), Err("rate limit exceeded".to_string()));
    assert_eq!(l.check_at("c", 10800), Ok(()));
    assert_eq!(l.check_at("d", 10800), Ok(()));
}

#[test]
fn roles_held_are_those_assigned() {
    let mut r = InMemoryRbac::new();
    assert!(!r.has_role("ann", Role::Viewer));
    r.assign("ann", Role::Viewer);
    r.assign("bob", Role::Admin);
    r.assign("ann", Role::Editor);
    r.assign("ann", Role::Viewer);
    assert!(r.has_role("ann", Role::Viewer));
    assert!(r.has_role("ann", Role::Editor));
    assert!(!r.has_role("ann", Role::Admin));
    assert!(r.has_role("bob", Role::Admin));
    assert!(!r.has_role("bob", Role::Viewer));
    assert!(!r.has_role("cy", Role::Viewer));
}

#[test]
fn no_pages_give_an_empty_list() {
    let pages: Vec<Vec<u8>> = Vec::new();
    assert!(LocalVlm.extract_pages(&pages, None).unwrap().is_empty());
}
