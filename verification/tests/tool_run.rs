use document_parsing::document::{DocumentMetadata, ParsedDocument};
use document_parsing::format::DocumentFormat;
use document_parsing::tool::{served_name, DocumentParser, DocumentParserArgs, FormatError, Phase, RunAction, RunEvent, ToolRun};

fn args(source: &str, format: Option<&str>) -> DocumentParserArgs {
    DocumentParserArgs { source: source.to_string(), format: format.map(|f| f.to_string()) }
}

fn doc(text: &str, format: DocumentFormat) -> ParsedDocument {
    ParsedDocument { text: text.to_string(), metadata: DocumentMetadata { format, slide_count: None } }
}

#[test]
fn resolve_format_prefers_override() {
    assert_eq!(DocumentParser::resolve_format("data.dat", Some("csv")).ok(), Some(DocumentFormat::Csv));
    assert_eq!(DocumentParser::resolve_format("data.pdf", Some("json")).ok(), Some(DocumentFormat::Json));
    assert_eq!(DocumentParser::resolve_format("data.pdf", None).ok(), Some(DocumentFormat::Pdf));
}

#[test]
fn resolve_format_errors() {
    match DocumentParser::resolve_format("data.pdf", Some("nope")) {
        Err(e @ FormatError::UnsupportedOverride(_)) => {
            assert_eq!(e.message(), "Unsupported format override: nope");
        }
        _ => panic!("expected an unsupported override"),
    }
    match DocumentParser::resolve_format("data.xyz", None) {
        Err(e @ FormatError::Undetected(_)) => {
            assert_eq!(
                e.message(),
                "Cannot detect document format from source: data.xyz. Use the 'format' parameter to specify it explicitly."
            );
        }
        _ => panic!("expected an undetected format"),
    }
}

#[test]
fn local_text_file_run() {
    let run = ToolRun::new(args("/tmp/dir/test.txt", None));
    let (run, action) = run.step(RunEvent::Begin);
    assert!(matches!(action, RunAction::ReadFile(ref p) if p == "/tmp/dir/test.txt"));
    let (run, action) = run.step(RunEvent::FileRead);
    assert!(matches!(action, RunAction::Parse { format: DocumentFormat::Txt, on_worker: false }));
    let (run, action) = run.step(RunEvent::Parsed(doc("Héllo World", DocumentFormat::Txt)));
    match action {
        RunAction::Respond(out) => {
            assert_eq!(out.source, "/tmp/dir/test.txt");
            assert_eq!(out.format.as_str(), "txt");
            assert_eq!(out.content, "Héllo World");
            assert_eq!(out.content_length, 12);
        }
        _ => panic!("expected an answer"),
    }
    assert_eq!(run.phase, Phase::Finished);
    let (run, action) = run.step(RunEvent::FileRead);
    assert!(matches!(action, RunAction::Ignore));
    assert_eq!(run.phase, Phase::Finished);
}

#[test]
fn local_file_with_override_run() {
    let run = ToolRun::new(args("data.dat", Some("csv")));
    let (run, _) = run.step(RunEvent::Begin);
    let (_, action) = run.step(RunEvent::FileRead);
    assert!(matches!(action, RunAction::Parse { format: DocumentFormat::Csv, on_worker: false }));
}

#[test]
fn unknown_format_run_fails() {
    let run = ToolRun::new(args("data.xyz", None));
    let (run, _) = run.step(RunEvent::Begin);
    let (run, action) = run.step(RunEvent::FileRead);
    assert!(matches!(action, RunAction::Fail(FormatError::Undetected(ref s)) if s == "data.xyz"));
    assert_eq!(run.phase, Phase::Finished);
}

#[test]
fn remote_run_uses_served_name() {
    let run = ToolRun::new(args("https://example.com/download?id=3", None));
    let (run, action) = run.step(RunEvent::Begin);
    assert!(matches!(action, RunAction::Download(ref u) if u == "https://example.com/download?id=3"));
    let (run, action) = run.step(RunEvent::Downloaded("/files/report.PDF".to_string()));
    assert!(matches!(action, RunAction::Parse { format: DocumentFormat::Pdf, on_worker: true }));
    assert_eq!(run.phase, Phase::AwaitingParse(DocumentFormat::Pdf));
}

#[test]
fn remote_run_without_served_name_uses_source() {
    let run = ToolRun::new(args("https://example.com/sheet.xlsx", None));
    let (run, _) = run.step(RunEvent::Begin);
    let (_, action) = run.step(RunEvent::Downloaded("text/plain,hello".to_string()));
    assert!(matches!(action, RunAction::Parse { format: DocumentFormat::Xlsx, on_worker: true }));
}

#[test]
fn remote_run_served_from_directory_fails() {
    let run = ToolRun::new(args("https://example.com/sheet.xlsx", None));
    let (run, _) = run.step(RunEvent::Begin);
    let (run, action) = run.step(RunEvent::Downloaded("/files/".to_string()));
    assert!(matches!(action, RunAction::Fail(FormatError::Undetected(ref s)) if s.is_empty()));
    assert_eq!(run.phase, Phase::Finished);
}

#[test]
fn remote_run_with_override_ignores_served_name() {
    let run = ToolRun::new(args("https://example.com/export", Some("xml")));
    let (run, _) = run.step(RunEvent::Begin);
    let (_, action) = run.step(RunEvent::Downloaded("/export".to_string()));
    assert!(matches!(action, RunAction::Parse { format: DocumentFormat::Xml, on_worker: true }));
}

#[test]
fn served_name_is_last_path_segment() {
    assert_eq!(served_name("/a/b/report.pdf"), Some("report.pdf".to_string()));
    assert_eq!(served_name("/report.pdf"), Some("report.pdf".to_string()));
    assert_eq!(served_name("/vi%E1%BB%87t%20nam.docx"), Some("vi%E1%BB%87t%20nam.docx".to_string()));
    assert_eq!(served_name("/"), Some(String::new()));
    assert_eq!(served_name("/dir/"), Some(String::new()));
    assert_eq!(served_name(""), None);
    assert_eq!(served_name("text/plain,hello"), None);
}

#[test]
fn out_of_order_events_are_ignored() {
    let run = ToolRun::new(args("file.md", None));
    let (run, action) = run.step(RunEvent::FileRead);
    assert!(matches!(action, RunAction::Ignore));
    assert_eq!(run.phase, Phase::Start);
}
