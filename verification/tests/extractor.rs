use opendocu::entities::{extract_all, EntityType};
use opendocu::extractor::extract;
use opendocu::heuristics::LayoutAnalyzer;
use opendocu::models::{ExtractionOptions, KeyValueSet, Table};
use opendocu::tables::TableDetector;
use opendocu::vlm::{LocalVlm, VisionLanguageModel};

#[test]
fn extracts_email() {
    let e = extract_all("Contact billing@example.com today.");
    assert!(e.iter().any(|x| matches!(x.entity_type, EntityType::Email) && x.value == "billing@example.com"));
}

#[test]
fn extracts_iso_date() {
    let e = extract_all("Due by 2024-03-15.");
    assert!(e.iter().any(|x| matches!(x.entity_type, EntityType::Date)));
}

#[test]
fn extracts_money() {
    let e = extract_all("Total: $1,250.00 due.");
    assert!(e.iter().any(|x| matches!(x.entity_type, EntityType::Money)));
}

#[test]
fn extracts_identifier() {
    let e = extract_all("Invoice INV-2024-001 attached.");
    assert!(e.iter().any(|x| matches!(x.entity_type, EntityType::Identifier)));
}

#[test]
fn deduplicates_overlapping() {
    let e = extract_all("Visit https://example.com/contact now");
    let urls = e.iter().filter(|x| matches!(x.entity_type, EntityType::Url)).count();
    assert_eq!(urls, 1);
}

#[test]
fn extracts_colon_pairs() {
    let kv = LayoutAnalyzer::new().extract_key_values("Name: Alice\nDate: 2024-03-15\nTotal: $100");
    assert_eq!(kv.fields.len(), 3);
    assert_eq!(kv.get("name").unwrap().value, "Alice");
}

#[test]
fn extracts_aligned_pairs() {
    let kv = LayoutAnalyzer::new().extract_key_values("Name      Alice Smith\nEmail     alice@x.com");
    assert_eq!(kv.fields.len(), 2);
    assert_eq!(kv.get("email").unwrap().value, "alice@x.com");
}

#[test]
fn rejects_prose_with_colons() {
    let kv = LayoutAnalyzer::new().extract_key_values("The report notes: sales increased. Revenue grew. Costs fell.");
    assert_eq!(kv.fields.len(), 0);
}

#[test]
fn title_cases_keys() {
    let kv = LayoutAnalyzer::new().extract_key_values("customer name: Bob");
    assert!(kv.fields.iter().any(|f| f.key == "Customer Name"));
}

#[test]
fn extracts_invoice_data() {
    let text = "Invoice #INV-2024-001\nDate: 2024-03-15\nTotal: $1,250.00\nContact: billing@example.com";
    let result = extract(text, &ExtractionOptions::default());
    assert!(result.entities.iter().any(|e| matches!(e.entity_type, EntityType::Date)));
    assert!(result.entities.iter().any(|e| matches!(e.entity_type, EntityType::Email)));
    assert!(result.entities.iter().any(|e| matches!(e.entity_type, EntityType::Money)));
}

#[test]
fn extracts_key_values() {
    let text = "Name:   Alice Smith\nEmail:  alice@example.com\nPhone:  555-1234";
    let result = extract(text, &ExtractionOptions::default());
    assert!(result.key_values.fields.iter().any(|f| f.key == "Name"));
    assert!(result.key_values.fields.iter().any(|f| f.key == "Email"));
}

#[test]
fn options_default_extracts_everything() {
    let o = ExtractionOptions::default();
    assert!(o.extract_tables);
    assert!(o.extract_key_values);
    assert!(o.extract_entities);
}

#[test]
fn table_header_access() {
    let t = Table {
        rows: vec![vec!["A".into(), "B".into()], vec!["1".into(), "2".into()]],
        has_header: true,
        start_line: 1,
    };
    assert_eq!(t.header().unwrap(), &vec!["A".to_string(), "B".to_string()]);
    assert_eq!(t.data_rows().len(), 1);
    assert_eq!(t.column_count(), 2);
}

#[test]
fn keyvalue_case_insensitive_lookup() {
    let mut kv = KeyValueSet::default();
    kv.insert("Name", "Alice", 900);
    assert_eq!(kv.get("name").unwrap().value, "Alice");
}

#[test]
fn detects_space_aligned_table() {
    let text = "Name       Email              Amount\nAlice      alice@x.com        100\nBob        bob@y.com          200";
    let tables = TableDetector::new().detect(text);
    assert_eq!(tables.len(), 1);
    assert_eq!(tables[0].row_count(), 3);
    assert_eq!(tables[0].column_count(), 3);
    assert!(tables[0].has_header);
}

#[test]
fn detects_pipe_table() {
    let text = "| Name  | Age |\n|-------|-----|\n| Alice | 30  |";
    let tables = TableDetector::new().detect(text);
    assert_eq!(tables.len(), 1);
    assert!(tables[0].has_header);
}

#[test]
fn ignores_single_line() {
    let text = "Just one line of prose here.";
    let tables = TableDetector::new().detect(text);
    assert_eq!(tables.len(), 0);
}

#[test]
fn detects_tab_delimited() {
    let text = "Name\tAge\tCity\nAlice\t30\tNYC\nBob\t25\tLA";
    let tables = TableDetector::new().detect(text);
    assert_eq!(tables.len(), 1);
    assert_eq!(tables[0].column_count(), 3);
}

#[test]
fn local_vlm_returns_valid_empty_result() {
    let vlm = LocalVlm;
    let result = vlm.extract_page(b"fake-image-bytes", None).unwrap();
    assert_eq!(result.field_count, 0);
    assert!(result.provider.contains("stub"));
}

#[test]
fn local_vlm_handles_multiple_pages() {
    let vlm = LocalVlm;
    let pages = vec![b"page1".to_vec(), b"page2".to_vec()];
    let results = vlm.extract_pages(&pages, None).unwrap();
    assert_eq!(results.len(), 2);
}
