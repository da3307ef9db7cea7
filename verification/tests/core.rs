use opendocu::extract::{extract, extract_text};
use opendocu::models::ExtractionOptions;

#[test]
fn extracts_from_invoice_text() {
    let text = b"Invoice #INV-2024-001\nDate: 2024-03-15\nTotal: $1,250.00\nEmail: billing@example.com";
    let result = extract(text, ExtractionOptions::default()).unwrap();
    assert!(!result.entities.is_empty());
    assert!(result.key_values.fields.iter().any(|f| f.key == "Date"));
    assert!(result.field_count > 0);
}

#[test]
fn extract_text_works_without_parsing() {
    let result = extract_text("Total: $500.00", ExtractionOptions::default()).unwrap();
    assert!(result.entities.iter().any(|e| e.value.contains("500")));
}
