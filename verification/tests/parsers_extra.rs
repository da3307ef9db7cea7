use opendocu::detect::{detect_format, detect_text_format};
use opendocu::document::{Block, Document, DocumentFormat, Section};
use opendocu::docx::{doc_from_body, heading_level, BodyItem, DocxParagraph, ParaItem, RunItem};
use opendocu::epub::doc_from_spine;
use opendocu::html::{collapse, strip_markup};
use opendocu::parse::{doc_from_text, format_label, parse_format, DefaultParser, ParseError, Parser};
use opendocu::reduce::{parse_format_hint, render, OutputFormat};

fn blocks(d: &Document) -> Vec<&Block> {
    d.sections.iter().flat_map(|s| &s.blocks).collect()
}

#[test]
fn heading_level_reads_digits_one_to_nine() {
    assert_eq!(heading_level("Title 3"), Some(3));
    assert_eq!(heading_level("HEADING9"), Some(9));
    assert_eq!(heading_level("heading10"), None);
    assert_eq!(heading_level("heading 0"), None);
    assert_eq!(heading_level("heading"), None);
    assert_eq!(heading_level("subheading 1"), None);
    assert_eq!(heading_level("heading 01"), Some(1));
}

#[test]
fn text_document_titles_and_blocks() {
    let d = doc_from_text(DocumentFormat::PlainText, "# Intro\n\nbody text\n\n# Later");
    assert_eq!(d.title.as_deref(), Some("Later"));
    assert_eq!(d.sections.len(), 1);
    let b = blocks(&d);
    assert_eq!(b.len(), 3);
    assert!(matches!(b[0], Block::Heading { level: 1, text } if text == "Intro"));
    assert!(matches!(b[1], Block::Paragraph { text } if text == "body text"));
}

#[test]
fn blank_text_is_one_plain_block() {
    let d = doc_from_text(DocumentFormat::PlainText, "  \n\n  ");
    assert!(d.title.is_none());
    let b = blocks(&d);
    assert_eq!(b.len(), 1);
    assert!(matches!(b[0], Block::Plain { text } if text.is_empty()));
}

#[test]
fn full_text_joins_texts_with_blank_lines() {
    let d = Document {
        title: None,
        format: DocumentFormat::Markdown,
        sections: vec![Section {
            heading: Some("Head".to_string()),
            level: 2,
            blocks: vec![
                Block::Paragraph { text: "p".to_string() },
                Block::List { items: vec!["x".to_string(), "y".to_string()] },
            ],
        }],
    };
    assert_eq!(d.full_text(), "Head\n\np\n\nx\n\ny");
    assert_eq!(d.block_count(), 2);
    assert_eq!(d.word_count(), 3);
}

#[test]
fn unsupported_formats_are_reported() {
    for f in [DocumentFormat::Pdf, DocumentFormat::Docx, DocumentFormat::Epub] {
        let err = parse_format(f, b"data").unwrap_err();
        assert!(matches!(err, ParseError::UnsupportedFormat(g) if g == f));
    }
    let err = parse_format(DocumentFormat::Pdf, b"data").unwrap_err();
    assert_eq!(err.message(), "unsupported format: Pdf (enable the matching cargo feature)");
    assert_eq!(ParseError::EmptyInput.message(), "input was empty");
    assert_eq!(ParseError::Other("bad".to_string()).message(), "parsing failed: bad");
    assert_eq!(format_label(DocumentFormat::Unknown), "Unknown");
}

#[test]
fn unknown_format_parses_as_plain_text() {
    let d = parse_format(DocumentFormat::Unknown, b"hello").unwrap();
    assert_eq!(d.format, DocumentFormat::PlainText);
}

#[test]
fn default_parser_uses_hint_or_detection() {
    let p = DefaultParser { format_hint: Some(DocumentFormat::PlainText) };
    let d = p.parse(b"# Not a heading really").unwrap();
    assert_eq!(d.format, DocumentFormat::PlainText);
    let q = DefaultParser::default();
    let d = q.parse(b"# Title\n\nSome paragraph text here.").unwrap();
    assert_eq!(d.format, DocumentFormat::Markdown);
    assert!(matches!(q.parse(b"").unwrap_err(), ParseError::EmptyInput));
    assert_eq!(q.supports(), DocumentFormat::Unknown);
}

#[test]
fn zip_containers_are_told_apart_by_entry_names() {
    assert_eq!(detect_format(b"PK\x03\x04word/document.xml"), DocumentFormat::Docx);
    assert_eq!(detect_format(b"PK\x03\x04mimetypeapplication/epub+zip"), DocumentFormat::Epub);
    assert_eq!(detect_format(b"PK\x03\x04other.bin"), DocumentFormat::Docx);
    assert_eq!(detect_format(b"PK\x03\x04mimetyp"), DocumentFormat::Docx);
    let mut far = b"PK\x03\x04".to_vec();
    far.extend(std::iter::repeat(b'x').take(4096));
    far.extend_from_slice(b"mimetype");
    assert_eq!(detect_format(&far), DocumentFormat::Docx);
}

#[test]
fn html_probe_stops_at_a_char_boundary() {
    let text = "<p>".to_string() + &"a".repeat(2044) + "\u{e9}</p>";
    assert_eq!(detect_text_format(&text), DocumentFormat::PlainText);
    assert_eq!(detect_format(text.as_bytes()), DocumentFormat::PlainText);
    let near = "<p>".to_string() + &"a".repeat(2040) + "</p>\u{e9}";
    assert_eq!(detect_format(near.as_bytes()), DocumentFormat::Html);
}

#[test]
fn html_skips_blocks_nested_in_lists() {
    let html = b"<html><body><ul><li><p>inner</p></li><li>  two\n words </li></ul><blockquote><p>q</p></blockquote></body></html>";
    let d = opendocu::html::parse(html).unwrap();
    let b = blocks(&d);
    assert_eq!(b.len(), 2);
    assert!(matches!(b[0], Block::List { items } if items == &vec!["inner".to_string(), "two words".to_string()]));
    assert!(matches!(b[1], Block::Quote { text } if text == "q"));
}

#[test]
fn html_title_falls_back_to_first_h1() {
    let d = opendocu::html::parse(b"<h1> Main </h1><h2>Sub</h2><pre>  code  </pre>").unwrap();
    assert_eq!(d.title.as_deref(), Some("Main"));
    let b = blocks(&d);
    assert!(matches!(b[1], Block::Heading { level: 2, text } if text == "Sub"));
    assert!(matches!(b[2], Block::Code { language: None, text } if text == "code"));
}

#[test]
fn html_without_blocks_falls_back_to_text() {
    let d = opendocu::html::parse(b"<div>just <b>words</b></div>").unwrap();
    assert_eq!(d.format, DocumentFormat::Html);
    let b = blocks(&d);
    assert!(matches!(b[0], Block::Paragraph { text } if text == "just words"));
    assert_eq!(strip_markup("a<b>c</b>d"), "acd");
    assert_eq!(collapse("  a \t b\n\nc  "), "a b c");
}

#[test]
fn markdown_level_two_heading_starts_a_section() {
    let d = opendocu::markdown::parse(b"# T\n\nintro\n\n## Part\n\nmore").unwrap();
    assert_eq!(d.title.as_deref(), Some("T"));
    assert_eq!(d.sections.len(), 2);
    assert_eq!(d.sections[1].level, 2);
}

#[test]
fn format_hints_ignore_case() {
    assert_eq!(parse_format_hint("MD"), Some(DocumentFormat::Markdown));
    assert_eq!(parse_format_hint("txt"), Some(DocumentFormat::PlainText));
    assert_eq!(parse_format_hint("Htm"), Some(DocumentFormat::Html));
    assert_eq!(parse_format_hint("EPUB"), Some(DocumentFormat::Epub));
    assert_eq!(parse_format_hint("doc"), None);
}

#[test]
fn render_formats_key_points() {
    let kps = vec!["one".to_string(), "two".to_string()];
    assert_eq!(render("Sum.", &kps, OutputFormat::PlainText), "Sum.\n\nKey points:\n- one\n- two\n");
    assert_eq!(render(" Sum. ", &kps, OutputFormat::Markdown), "Sum.\n\n**Key points**\n\n- one\n- two");
    assert_eq!(render(" Sum. ", &[], OutputFormat::Markdown), "Sum.");
    assert_eq!(render(" Sum. ", &kps, OutputFormat::Json), " Sum. ");
    assert_eq!(render("Sum.", &[], OutputFormat::PlainText), "Sum.");
}

#[test]
fn docx_body_becomes_blocks() {
    let para = |style: Option<&str>, text: &str| {
        BodyItem::Paragraph(DocxParagraph {
            style: style.map(|s| s.to_string()),
            children: vec![ParaItem::Run(vec![RunItem::Text(text.to_string())])],
        })
    };
    let body = vec![
        para(Some("Heading1"), " Report "),
        BodyItem::Other,
        para(None, "Body"),
        para(Some("Heading 2"), "Part"),
        para(Some("Normal"), "   "),
    ];
    let d = doc_from_body(&body);
    assert_eq!(d.format, DocumentFormat::Docx);
    assert_eq!(d.title.as_deref(), Some("Report"));
    let b = blocks(&d);
    assert_eq!(b.len(), 3);
    assert!(matches!(b[0], Block::Heading { level: 1, text } if text == "Report"));
    assert!(matches!(b[1], Block::Paragraph { text } if text == "Body"));
    assert!(matches!(b[2], Block::Heading { level: 2, text } if text == "Part"));
}

#[test]
fn docx_runs_tabs_breaks_and_links() {
    let p = DocxParagraph {
        style: None,
        children: vec![
            ParaItem::Run(vec![RunItem::Text("a".into()), RunItem::Tab, RunItem::Text("b".into()), RunItem::Break]),
            ParaItem::Hyperlink(vec![Some(vec![RunItem::Text("link".into()), RunItem::Tab]), None]),
            ParaItem::Other,
        ],
    };
    assert_eq!(opendocu::docx::paragraph_text(&p).into_iter().collect::<String>(), "a\tb\nlink");
}

#[test]
fn epub_spine_text_and_metadata_title() {
    let items = vec![
        Some((b"<p>Hello</p>".to_vec(), "application/xhtml+xml".to_string())),
        Some((b"body{}".to_vec(), "text/css".to_string())),
        None,
        Some((b"<p>World</p>".to_vec(), "text/html".to_string())),
    ];
    let d = doc_from_spine(Some("  My Book ".to_string()), &items);
    assert_eq!(d.format, DocumentFormat::Epub);
    assert_eq!(d.title.as_deref(), Some("Hello"));
    let b = blocks(&d);
    assert_eq!(b.len(), 2);
    assert!(matches!(b[1], Block::Paragraph { text } if text == "World"));
    let e = doc_from_spine(Some("  My Book ".to_string()), &vec![]);
    assert_eq!(e.title.as_deref(), Some("My Book"));
}

#[test]
fn invalid_utf8_is_replaced() {
    let d = opendocu::text::parse(b"a\xffb").unwrap();
    let b = blocks(&d);
    assert!(matches!(b[0], Block::Paragraph { text } if text == "a\u{FFFD}b"));
}
