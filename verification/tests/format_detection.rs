use document_parsing::format::DocumentFormat;
use document_parsing::DocumentParser;

#[test]
fn test_format_detection() {
    assert_eq!(DocumentFormat::from_extension("file.pdf"), Some(DocumentFormat::Pdf));
    assert_eq!(DocumentFormat::from_extension("file.DOCX"), Some(DocumentFormat::Docx));
    assert_eq!(DocumentFormat::from_extension("file.xlsx"), Some(DocumentFormat::Xlsx));
    assert_eq!(DocumentFormat::from_extension("file.pptx"), Some(DocumentFormat::Pptx));
    assert_eq!(DocumentFormat::from_extension("file.html"), Some(DocumentFormat::Html));
    assert_eq!(DocumentFormat::from_extension("file.htm"), Some(DocumentFormat::Html));
    assert_eq!(DocumentFormat::from_extension("file.csv"), Some(DocumentFormat::Csv));
    assert_eq!(DocumentFormat::from_extension("file.json"), Some(DocumentFormat::Json));
    assert_eq!(DocumentFormat::from_extension("file.xml"), Some(DocumentFormat::Xml));
    assert_eq!(DocumentFormat::from_extension("file.txt"), Some(DocumentFormat::Txt));
    assert_eq!(DocumentFormat::from_extension("file.md"), Some(DocumentFormat::Markdown));
    assert_eq!(DocumentFormat::from_extension("file.unknown"), None);
}

#[test]
fn test_format_detection_url_with_query() {
    assert_eq!(
        DocumentFormat::from_extension("https://example.com/file.pdf?token=abc"),
        Some(DocumentFormat::Pdf)
    );
}

#[test]
fn test_from_str_name() {
    assert_eq!(DocumentFormat::from_str_name("pdf"), Some(DocumentFormat::Pdf));
    assert_eq!(DocumentFormat::from_str_name("csv"), Some(DocumentFormat::Csv));
    assert_eq!(DocumentFormat::from_str_name("nope"), None);
}

#[test]
fn test_is_url() {
    assert!(DocumentParser::is_url("https://example.com/file.pdf"));
    assert!(DocumentParser::is_url("http://example.com/file.pdf"));
    assert!(!DocumentParser::is_url("/path/to/file.pdf"));
    assert!(!DocumentParser::is_url("file.pdf"));
}

const ALL_FORMATS: [DocumentFormat; 10] = [
    DocumentFormat::Pdf,
    DocumentFormat::Docx,
    DocumentFormat::Xlsx,
    DocumentFormat::Pptx,
    DocumentFormat::Html,
    DocumentFormat::Csv,
    DocumentFormat::Json,
    DocumentFormat::Xml,
    DocumentFormat::Txt,
    DocumentFormat::Markdown,
];

#[test]
fn canonical_names_resolve_back() {
    for f in ALL_FORMATS {
        assert_eq!(DocumentFormat::from_str_name(f.as_str()), Some(f));
        assert_eq!(DocumentFormat::from_lowercase_extension(f.as_str()), Some(f));
    }
}

#[test]
fn canonical_names() {
    assert_eq!(DocumentFormat::Markdown.as_str(), "markdown");
    assert_eq!(DocumentFormat::Html.as_str(), "html");
    assert_eq!(DocumentFormat::Txt.as_str(), "txt");
}

#[test]
fn alias_extensions() {
    assert_eq!(DocumentFormat::from_extension("notes.text"), Some(DocumentFormat::Txt));
    assert_eq!(DocumentFormat::from_extension("server.LOG"), Some(DocumentFormat::Txt));
    assert_eq!(DocumentFormat::from_extension("README.markdown"), Some(DocumentFormat::Markdown));
    assert_eq!(DocumentFormat::from_str_name("HTM"), Some(DocumentFormat::Html));
    assert_eq!(DocumentFormat::from_lowercase_extension("PDF"), None);
    assert_eq!(DocumentFormat::from_lowercase_extension("log"), Some(DocumentFormat::Txt));
}

#[test]
fn file_name_rules() {
    // directories never matter
    assert_eq!(DocumentFormat::from_extension("/tmp/some.dir/report.Pdf"), Some(DocumentFormat::Pdf));
    assert_eq!(DocumentFormat::from_extension("some.pdf/report"), None);
    // trailing separators and `.` components are skipped
    assert_eq!(DocumentFormat::from_extension("dir/report.csv/"), Some(DocumentFormat::Csv));
    assert_eq!(DocumentFormat::from_extension("dir/report.csv/./"), Some(DocumentFormat::Csv));
    // a path ending in `..` has no file name
    assert_eq!(DocumentFormat::from_extension("dir/report.csv/.."), None);
    // a leading dot alone is no extension
    assert_eq!(DocumentFormat::from_extension(".json"), None);
    assert_eq!(DocumentFormat::from_extension("..json"), Some(DocumentFormat::Json));
    // only the last extension counts
    assert_eq!(DocumentFormat::from_extension("archive.json.gz"), None);
    assert_eq!(DocumentFormat::from_extension("file."), None);
    assert_eq!(DocumentFormat::from_extension(""), None);
}

#[test]
fn query_strings_are_ignored() {
    assert_eq!(DocumentFormat::from_extension("report.xml?x=a.pdf"), Some(DocumentFormat::Xml));
    assert_eq!(DocumentFormat::from_extension("report?x=a.pdf"), None);
    assert_eq!(DocumentFormat::from_str_name("csv?x"), Some(DocumentFormat::Csv));
}

#[test]
fn ascii_case_is_ignored() {
    for path in ["DIR/Report.PDF", "https://X.COM/A.Docx?Q=1", "notes.MarkDown", "a.XYZ", "plain", "/home/jos\u{e9}/Report.Pdf", "\u{c9}T\u{c9}/slides.pptx"] {
        assert_eq!(DocumentFormat::from_extension(path), DocumentFormat::from_extension(&path.to_ascii_lowercase()));
        assert_eq!(DocumentFormat::from_extension(path), DocumentFormat::from_extension(&path.to_ascii_uppercase()));
    }
    assert_eq!(DocumentFormat::from_extension("/home/jos\u{e9}/REPORT.PDF"), Some(DocumentFormat::Pdf));
    assert_eq!(DocumentFormat::from_extension("\u{c9}T\u{c9}/SLIDES.PPTX"), Some(DocumentFormat::Pptx));
    assert_eq!(DocumentFormat::from_str_name("CSV"), Some(DocumentFormat::Csv));
    assert_eq!(DocumentFormat::from_str_name("Json"), Some(DocumentFormat::Json));
}
