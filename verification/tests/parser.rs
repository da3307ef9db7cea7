use opendocu::detect::detect_format;
use opendocu::document::{Block, DocumentFormat};
use opendocu::docx::heading_level;
use opendocu::parse::{parse_format, ParseError};

#[test]
fn detects_pdf_magic() {
    assert_eq!(detect_format(b"%PDF-1.7\n..."), DocumentFormat::Pdf);
}

#[test]
fn detects_html_doctype() {
    let h = b"<!DOCTYPE html><html><body>hi</body></html>";
    assert_eq!(detect_format(h), DocumentFormat::Html);
}

#[test]
fn detects_markdown_heading() {
    let m = b"# Title\n\nSome paragraph text here that is long enough.";
    assert_eq!(detect_format(m), DocumentFormat::Markdown);
}

#[test]
fn falls_back_to_plain_text() {
    assert_eq!(detect_format(b"just some prose with no markers"), DocumentFormat::PlainText);
}

#[test]
fn empty_is_unknown() {
    assert_eq!(detect_format(b""), DocumentFormat::Unknown);
}

#[test]
fn heading_level_parses_styles() {
    assert_eq!(heading_level("heading1"), Some(1));
    assert_eq!(heading_level("Heading 2"), Some(2));
    assert_eq!(heading_level("Normal"), None);
    assert_eq!(heading_level("BodyText"), None);
}

#[test]
fn extracts_title_and_paragraphs() {
    let html = b"<!DOCTYPE html><html><head><title>My Page</title></head><body><h1>My Page</h1><p>First.</p><p>Second.</p></body></html>";
    let doc = opendocu::html::parse(html).unwrap();
    assert_eq!(doc.title.as_deref(), Some("My Page"));
    let paras: Vec<_> = doc.sections.iter().flat_map(|s| &s.blocks).collect();
    assert!(paras.iter().any(|b| matches!(b, Block::Heading { level: 1, .. })));
    assert!(paras.iter().any(|b| matches!(b, Block::Paragraph { text } if text == "First.")));
}

#[test]
fn extracts_list() {
    let html = b"<html><body><ul><li>one</li><li>two</li></ul></body></html>";
    let doc = opendocu::html::parse(html).unwrap();
    assert!(doc.sections.iter().flat_map(|s| &s.blocks).any(|b| matches!(b, Block::List { items } if items.len() == 2)));
}

#[test]
fn parses_plain_text() {
    let doc = parse_format(DocumentFormat::PlainText, b"Hello world. Another sentence.").unwrap();
    assert_eq!(doc.format, DocumentFormat::PlainText);
    assert!(doc.word_count() >= 4);
}

#[test]
fn empty_input_errors() {
    let err = parse_format(DocumentFormat::PlainText, b"").unwrap_err();
    assert!(matches!(err, ParseError::EmptyInput));
}

#[test]
fn parses_heading_and_paragraph() {
    let md = b"# Title\n\nFirst paragraph here.\n\nSecond paragraph here too.";
    let doc = opendocu::markdown::parse(md).unwrap();
    assert_eq!(doc.title.as_deref(), Some("Title"));
    assert!(!doc.sections.is_empty());
    assert!(doc.word_count() > 0);
}

#[test]
fn parses_list_and_code() {
    let md = b"# Doc\n\n- one\n- two\n\n```rust\nlet x = 1;\n```";
    let doc = opendocu::markdown::parse(md).unwrap();
    let all_blocks: Vec<_> = doc.sections.iter().flat_map(|s| &s.blocks).collect();
    assert!(all_blocks.iter().any(|b| matches!(b, Block::List { .. })));
    assert!(all_blocks.iter().any(|b| matches!(b, Block::Code { .. })));
}

#[test]
fn splits_paragraphs() {
    let doc = opendocu::text::parse(b"first paragraph\n\nsecond paragraph").unwrap();
    let paras: Vec<_> = doc.sections.into_iter().flat_map(|s| s.blocks).collect();
    assert_eq!(paras.len(), 2);
    assert!(matches!(paras[0], Block::Paragraph { .. }));
}
