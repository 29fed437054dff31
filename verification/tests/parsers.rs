use std::io::{Cursor, Write};

use document_parsing::document::ParseError;
use document_parsing::format::DocumentFormat;
use document_parsing::office::{text_of_docx_events, text_of_ooxml_events};
use document_parsing::xml::{read_xml_events, text_of_xml_events, XmlEvent};
use document_parsing::{parse_docx, parse_pptx, parse_xml};

fn zip_of(entries: &[(&str, &str)]) -> Vec<u8> {
    let mut zip = zip::ZipWriter::new(Cursor::new(Vec::new()));
    let options = zip::write::SimpleFileOptions::default();
    for (name, content) in entries {
        zip.start_file(*name, options).unwrap();
        zip.write_all(content.as_bytes()).unwrap();
    }
    zip.finish().unwrap().into_inner()
}

fn create_minimal_docx(text: &str) -> Vec<u8> {
    let xml = format!(
        r#"<?xml version="1.0" encoding="UTF-8"?>
<w:document xmlns:w="http://schemas.openxmlformats.org/wordprocessingml/2006/main">
  <w:body>
    <w:p><w:r><w:t>{}</w:t></w:r></w:p>
  </w:body>
</w:document>"#,
        text
    );
    zip_of(&[("word/document.xml", xml.as_str())])
}

fn slide_xml(text: &str) -> String {
    format!(
        r#"<?xml version="1.0" encoding="UTF-8"?>
<p:sld xmlns:a="http://schemas.openxmlformats.org/drawingml/2006/main"
       xmlns:p="http://schemas.openxmlformats.org/presentationml/2006/main">
  <p:cSld><p:spTree><p:sp><p:txBody>
    <a:p><a:r><a:t>{}</a:t></a:r></a:p>
  </p:txBody></p:sp></p:spTree></p:cSld>
</p:sld>"#,
        text
    )
}

fn create_minimal_pptx(text: &str) -> Vec<u8> {
    zip_of(&[("ppt/slides/slide1.xml", slide_xml(text).as_str())])
}

#[test]
fn test_parse_docx_basic() {
    let docx_bytes = create_minimal_docx("Hello World");
    let result = parse_docx(&docx_bytes).expect("Failed to parse DOCX");
    assert!(result.text.contains("Hello World"));
}

#[test]
fn test_parse_docx_invalid() {
    let result = parse_docx(b"not a zip");
    assert!(result.is_err());
}

#[test]
fn test_parse_pptx_basic() {
    let pptx_bytes = create_minimal_pptx("Slide Content");
    let result = parse_pptx(&pptx_bytes).expect("Failed to parse PPTX");
    assert!(result.text.contains("Slide Content"));
    assert_eq!(result.metadata.slide_count.unwrap() as u64, 1);
}

#[test]
fn test_parse_pptx_invalid() {
    let result = parse_pptx(b"not a zip");
    assert!(result.is_err());
}

#[test]
fn test_parse_xml_basic() {
    let xml = b"<root><item>Hello</item><item>World</item></root>";
    let result = parse_xml(xml).expect("Failed to parse XML");
    assert!(result.text.contains("Hello"));
    assert!(result.text.contains("World"));
}

#[test]
fn test_parse_xml_nested() {
    let xml = b"<root><parent><child>Content</child></parent></root>";
    let result = parse_xml(xml).expect("Failed to parse XML");
    assert!(result.text.contains("Content"));
}

#[test]
fn test_parse_xml_invalid() {
    let result = parse_xml(b"<unclosed>");
    // quick-xml may or may not error on unclosed tags depending on version
    // Just verify it doesn't panic
    let _ = result;
}

#[test]
fn xml_text_is_trimmed_lines() {
    let xml = b"<root>\n  <item>  Hello  </item>\n  <item>World</item>\n  <e/>\n</root>";
    let result = parse_xml(xml).expect("Failed to parse XML");
    assert_eq!(result.text, "Hello\nWorld");
    assert_eq!(result.metadata.format, DocumentFormat::Xml);
    assert_eq!(result.metadata.slide_count, None);
}

#[test]
fn xml_entities_are_unescaped() {
    let result = parse_xml(b"<a>x &amp; y</a>").expect("Failed to parse XML");
    assert_eq!(result.text, "x & y");
}

#[test]
fn xml_invalid_utf8() {
    assert!(matches!(parse_xml(&[0x3c, 0x61, 0x3e, 0xff, 0x3c, 0x2f, 0x61, 0x3e]), Err(ParseError::InvalidUtf8)));
}

#[test]
fn xml_mismatched_end_tag() {
    match parse_xml(b"<a>text</b>") {
        Err(ParseError::Format(m)) => assert!(m.starts_with("XML parse error: ")),
        _ => panic!("expected a format error"),
    }
}

#[test]
fn xml_event_text_logic() {
    let events = vec![
        XmlEvent::Start(b"a".to_vec()),
        XmlEvent::Text(Some("  one ".to_string())),
        XmlEvent::Text(Some(" \t\n".to_string())),
        XmlEvent::Text(None),
        XmlEvent::Other,
        XmlEvent::Text(Some("two".to_string())),
        XmlEvent::Eof,
        XmlEvent::Text(Some("after the end".to_string())),
    ];
    assert_eq!(text_of_xml_events(&events), Ok("one\ntwo".to_string()));
    let failing = vec![XmlEvent::Text(Some("x".to_string())), XmlEvent::Error("bad".to_string())];
    assert_eq!(text_of_xml_events(&failing), Err("bad".to_string()));
    assert_eq!(text_of_xml_events(&[]), Ok(String::new()));
}

#[test]
fn docx_event_text_logic() {
    let events = vec![
        XmlEvent::Text(Some("outside".to_string())),
        XmlEvent::Start(b"w:p".to_vec()),
        XmlEvent::Start(b"w:t".to_vec()),
        XmlEvent::Text(Some("Hello ".to_string())),
        XmlEvent::End(b"w:t".to_vec()),
        XmlEvent::Text(Some("between".to_string())),
        XmlEvent::Start(b"w:t".to_vec()),
        XmlEvent::Text(Some("World".to_string())),
        XmlEvent::End(b"w:t".to_vec()),
        XmlEvent::End(b"w:p".to_vec()),
        XmlEvent::Start(b"w:p".to_vec()),
        XmlEvent::End(b"w:p".to_vec()),
        XmlEvent::Eof,
    ];
    assert_eq!(text_of_docx_events(&events), Ok("Hello World\n\n".to_string()));
    let failing = vec![XmlEvent::Start(b"w:t".to_vec()), XmlEvent::Error("oops".to_string())];
    assert_eq!(text_of_docx_events(&failing), Err("oops".to_string()));
}

#[test]
fn ooxml_event_text_logic() {
    let events = vec![
        XmlEvent::Start(b"a:t".to_vec()),
        XmlEvent::Text(Some("one".to_string())),
        XmlEvent::End(b"a:t".to_vec()),
        XmlEvent::Text(Some("skipped".to_string())),
        XmlEvent::Start(b"a:t".to_vec()),
        XmlEvent::Text(Some("two".to_string())),
        XmlEvent::Error("stops here".to_string()),
        XmlEvent::Text(Some("never".to_string())),
    ];
    assert_eq!(text_of_ooxml_events(&events, b"a:t"), "one two");
    assert_eq!(text_of_ooxml_events(&events, b"b:t"), "");
}

#[test]
fn xml_reader_events() {
    let events = read_xml_events("<a>hi</a>");
    assert_eq!(events.len(), 4);
    assert!(matches!(&events[0], XmlEvent::Start(n) if n == b"a"));
    assert!(matches!(&events[1], XmlEvent::Text(Some(t)) if t == "hi"));
    assert!(matches!(&events[2], XmlEvent::End(n) if n == b"a"));
    assert!(matches!(&events[3], XmlEvent::Eof));
}

#[test]
fn docx_paragraphs() {
    let xml = r#"<w:document xmlns:w="x"><w:body><w:p><w:r><w:t>First</w:t></w:r></w:p><w:p><w:r><w:t>Second</w:t><w:t xml:space="preserve"> part</w:t></w:r></w:p></w:body></w:document>"#;
    let bytes = zip_of(&[("word/document.xml", xml)]);
    let result = parse_docx(&bytes).expect("Failed to parse DOCX");
    assert_eq!(result.text, "First\nSecond part\n");
    assert_eq!(result.metadata.format, DocumentFormat::Docx);
}

#[test]
fn docx_without_body_part() {
    let bytes = zip_of(&[("word/other.xml", "<a/>")]);
    match parse_docx(&bytes) {
        Err(ParseError::Format(m)) => assert!(m.starts_with("Missing word/document.xml: ")),
        _ => panic!("expected a missing part"),
    }
}

#[test]
fn docx_not_a_zip_message() {
    match parse_docx(b"not a zip") {
        Err(ParseError::Format(m)) => assert!(m.starts_with("Not a valid DOCX/ZIP: ")),
        _ => panic!("expected a format error"),
    }
}

#[test]
fn pptx_sections_in_archive_order() {
    let bytes = zip_of(&[
        ("ppt/presentation.xml", "<p:presentation/>"),
        ("ppt/slides/slide1.xml", slide_xml("First").as_str()),
        ("ppt/slides/_rels/slide1.xml.rels", "<Relationships/>"),
        ("ppt/slides/slide2.xml", slide_xml("Second").as_str()),
    ]);
    let result = parse_pptx(&bytes).expect("Failed to parse PPTX");
    assert_eq!(result.text, "--- Slide 1 ---\nFirst\n\n--- Slide 2 ---\nSecond");
    assert_eq!(result.metadata.slide_count, Some(2));
    assert_eq!(result.metadata.format, DocumentFormat::Pptx);
}

#[test]
fn pptx_without_slides() {
    let bytes = zip_of(&[("ppt/presentation.xml", "<p:presentation/>")]);
    let result = parse_pptx(&bytes).expect("Failed to parse PPTX");
    assert_eq!(result.text, "");
    assert_eq!(result.metadata.slide_count, Some(0));
}

#[test]
fn pptx_not_a_zip_message() {
    match parse_pptx(b"not a zip") {
        Err(ParseError::Format(m)) => assert!(m.starts_with("Not a valid PPTX/ZIP: ")),
        _ => panic!("expected a format error"),
    }
}

#[test]
fn pptx_slide_numbers_past_nine() {
    let names: Vec<String> = (1..=11).map(|k| format!("ppt/slides/slide{}.xml", k)).collect();
    let xmls: Vec<String> = (1..=11).map(|k| slide_xml(&format!("S{}", k))).collect();
    let entries: Vec<(&str, &str)> = names.iter().zip(xmls.iter()).map(|(n, x)| (n.as_str(), x.as_str())).collect();
    let result = parse_pptx(&zip_of(&entries)).expect("Failed to parse PPTX");
    assert_eq!(result.metadata.slide_count, Some(11));
    assert!(result.text.ends_with("--- Slide 10 ---\nS10\n\n--- Slide 11 ---\nS11"));
    assert!(result.text.starts_with("--- Slide 1 ---\nS1\n\n"));
}

#[test]
fn parser_choice_by_format() {
    let docx = create_minimal_docx("Chosen");
    let parsed = document_parsing::parse_document(DocumentFormat::Docx, &docx)
        .expect("a parser for docx")
        .expect("Failed to parse DOCX");
    assert!(parsed.text.contains("Chosen"));
    let xml = document_parsing::parse_document(DocumentFormat::Xml, b"<a>x</a>")
        .expect("a parser for xml")
        .expect("Failed to parse XML");
    assert_eq!(xml.text, "x");
    assert!(document_parsing::parse_document(DocumentFormat::Pptx, b"not a zip").expect("a parser for pptx").is_err());
    assert!(document_parsing::parse_document(DocumentFormat::Txt, b"plain").is_none());
    assert!(document_parsing::parse_document(DocumentFormat::Pdf, b"%PDF").is_none());
}

#[test]
fn xml_reading_stops_at_first_error() {
    let events = read_xml_events("<a></b>x");
    assert!(matches!(events.last(), Some(XmlEvent::Error(_))));
    assert_eq!(events.iter().filter(|e| matches!(e, XmlEvent::Error(_) | XmlEvent::Eof)).count(), 1);
}

#[test]
fn parsed_document_clones() {
    let parsed = parse_xml(b"<a>x</a>").expect("Failed to parse XML");
    let copy = parsed.clone();
    assert_eq!(copy.text, parsed.text);
    assert_eq!(format!("{:?}", copy.metadata), format!("{:?}", parsed.metadata));
}
