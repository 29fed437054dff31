use vstd::prelude::*;

use vstd::utf8::encode_utf8;

use crate::document::{DocumentMetadata, ParseError, ParseFailure, ParsedDocument, parse_outcome};
use crate::office::{docx_document, parse_docx, parse_pptx, pptx_document};
use crate::xml::{parse_xml, xml_document};
use crate::format::{detect_format, DocumentFormat};
use crate::text::{chars_of, is_prefix_of, last_index_of, lemma_last_index_of_bounds, rfind_char, starts_with};

verus! {

/// The arguments of a document parsing request.
#[derive(Debug)]
pub struct DocumentParserArgs {
    /// Local file path or URL of the document to parse.
    pub source: String,
    /// A format name that replaces detection from the source's extension.
    pub format: Option<String>,
}

/// The document parsing tool.
pub struct DocumentParser;

/// Why no format could be chosen for a request.
pub enum FormatError {
    /// The explicitly requested format name is not a supported one.
    UnsupportedOverride(String),
    /// No supported format can be detected from the source (or the name the
    /// fetched document carries).
    Undetected(String),
}

/// The text of a format error.
pub open spec fn format_error_message(e: FormatError) -> Seq<char> {
    match e {
        FormatError::UnsupportedOverride(fmt) => "Unsupported format override: "@ + fmt@,
        FormatError::Undetected(source) => "Cannot detect document format from source: "@ + source@
            + ". Use the 'format' parameter to specify it explicitly."@,
    }
}

impl FormatError {
    /// The human readable text of this error.
    pub fn message(&self) -> (m: String)
        ensures
            m@ == format_error_message(*self),
    {
        match self {
            FormatError::UnsupportedOverride(fmt) => {
                let mut m = String::from_str("Unsupported format override: ");
                m.append(fmt.as_str());
                m
            },
            FormatError::Undetected(source) => {
                let mut m = String::from_str("Cannot detect document format from source: ");
                m.append(source.as_str());
                m.append(". Use the 'format' parameter to specify it explicitly.");
                m
            },
        }
    }
}

/// A source is fetched over the network when it is an http or https URL.
pub open spec fn is_url_source(source: Seq<char>) -> bool {
    is_prefix_of("http://"@, source) || is_prefix_of("https://"@, source)
}

/// The format chosen for a request: the override's format when one is given,
/// otherwise the format detected from the source.
pub open spec fn chosen_format(source: Seq<char>, format_override: Option<Seq<char>>) -> Option<
    DocumentFormat,
> {
    match format_override {
        Some(fmt) => detect_format("file."@ + fmt),
        None => detect_format(source),
    }
}

/// The characters of an optional format name.
pub open spec fn override_view(o: Option<&str>) -> Option<Seq<char>> {
    match o {
        Some(s) => Some(s@),
        None => None,
    }
}

impl DocumentParser {
    pub fn new() -> (p: Self)
        ensures
            p == DocumentParser,
    {
        DocumentParser
    }

    /// Whether a source names a remote document (an http or https URL).
    pub fn is_url(source: &str) -> (r: bool)
        ensures
            r == is_url_source(source@),
    {
        starts_with(source, "http://") || starts_with(source, "https://")
    }

    /// The format to parse a source with: the override when one is given
    /// (which must name a supported format), else the format detected from
    /// the source.
    pub fn resolve_format(source: &str, format_override: Option<&str>) -> (r: Result<
        DocumentFormat,
        FormatError,
    >)
        ensures
            match r {
                Ok(f) => resolved_format(source@, override_view(format_override)) == Ok::<
                    DocumentFormat,
                    FormatFailure,
                >(f),
                Err(e) => resolved_format(source@, override_view(format_override)) == Err::<
                    DocumentFormat,
                    FormatFailure,
                >(e@),
            },
    {
        match format_override {
            Some(fmt) => match DocumentFormat::from_str_name(fmt) {
                Some(f) => Ok(f),
                None => Err(FormatError::UnsupportedOverride(String::from_str(fmt))),
            },
            None => match DocumentFormat::from_extension(source) {
                Some(f) => Ok(f),
                None => Err(FormatError::Undetected(String::from_str(source))),
            },
        }
    }
}

impl Default for DocumentParser {
    fn default() -> (p: Self)
        ensures
            p == DocumentParser,
    {
        DocumentParser
    }
}

/// A format error, by its characters.
pub enum FormatFailure {
    UnsupportedOverride(Seq<char>),
    Undetected(Seq<char>),
}

impl View for FormatError {
    type V = FormatFailure;

    open spec fn view(&self) -> FormatFailure {
        match self {
            FormatError::UnsupportedOverride(m) => FormatFailure::UnsupportedOverride(m@),
            FormatError::Undetected(m) => FormatFailure::Undetected(m@),
        }
    }
}

/// The format of a request, or why there is none: the override's format when
/// one is given, else the format detected from the source.
pub open spec fn resolved_format(source: Seq<char>, format_override: Option<Seq<char>>) -> Result<
    DocumentFormat,
    FormatFailure,
> {
    match chosen_format(source, format_override) {
        Some(f) => Ok(f),
        None => match format_override {
            Some(fmt) => Err(FormatFailure::UnsupportedOverride(fmt)),
            None => Err(FormatFailure::Undetected(source)),
        },
    }
}

/// What parsing bytes in a format gives, for the formats this library holds a
/// parser for (Word, PowerPoint, XML); None for the others.
pub open spec fn document_outcome(format: DocumentFormat, bytes: Seq<u8>) -> Option<
    Result<(Seq<char>, DocumentMetadata), ParseFailure>,
> {
    match format {
        DocumentFormat::Docx => Some(docx_document(bytes)),
        DocumentFormat::Pptx => Some(pptx_document(bytes)),
        DocumentFormat::Xml => Some(xml_document(bytes)),
        _ => None,
    }
}

/// Parses bytes with the parser for a format; None when this library holds
/// no parser for it.
pub fn parse_document(format: DocumentFormat, bytes: &[u8]) -> (r: Option<
    Result<ParsedDocument, ParseError>,
>)
    ensures
        match r {
            Some(x) => Some(parse_outcome(x)),
            None => None::<Result<(Seq<char>, DocumentMetadata), ParseFailure>>,
        } == document_outcome(format, bytes@),
        r is Some <==> (format is Docx || format is Pptx || format is Xml),
        r matches Some(Ok(d)) ==> d.metadata.format == format,
{
    match format {
        DocumentFormat::Docx => Some(parse_docx(bytes)),
        DocumentFormat::Pptx => Some(parse_pptx(bytes)),
        DocumentFormat::Xml => Some(parse_xml(bytes)),
        _ => None,
    }
}

/// Each format that has a parser is parsed by its own parser: a Word
/// document by the DOCX parser, a presentation by the PPTX parser, XML by the
/// XML parser; the others have none. A parsed document is reported in the
/// format it was asked for, with a slide count exactly for presentations.
pub proof fn lemma_each_format_its_own_parser(format: DocumentFormat, bytes: Seq<u8>)
    ensures
        document_outcome(format, bytes) is Some <==> (format is Docx || format is Pptx
            || format is Xml),
        format is Docx ==> document_outcome(format, bytes) == Some(docx_document(bytes)),
        format is Pptx ==> document_outcome(format, bytes) == Some(pptx_document(bytes)),
        format is Xml ==> document_outcome(format, bytes) == Some(xml_document(bytes)),
        document_outcome(format, bytes) matches Some(Ok((_, m))) ==> m.format == format && (
        m.slide_count is Some <==> format is Pptx),
{
}

/// Formats whose parsing runs on a blocking worker thread.
pub open spec fn parses_on_worker(f: DocumentFormat) -> bool {
    ||| f is Pdf
    ||| f is Docx
    ||| f is Xlsx
    ||| f is Pptx
    ||| f is Xml
}

/// The step a run is at.
#[derive(Debug, Clone, Copy, PartialEq, Eq, Structural)]
pub enum Phase {
    /// Nothing done yet.
    Start,
    /// Waiting for the document to be downloaded.
    AwaitingDownload,
    /// Waiting for the local file to be read.
    AwaitingFile,
    /// Waiting for the document to be parsed in this format.
    AwaitingParse(DocumentFormat),
    /// Answered or failed.
    Finished,
}

/// One execution of the tool on a request.
pub struct ToolRun {
    /// Local file path or URL of the document.
    pub source: String,
    /// Explicit format name, if the request gives one.
    pub format_override: Option<String>,
    /// The step the run is at.
    pub phase: Phase,
}

/// What happened outside since the last step.
pub enum RunEvent {
    /// The run is started.
    Begin,
    /// The document was downloaded; the path of the URL it was finally
    /// served from (after redirects).
    Downloaded(String),
    /// The local file was read.
    FileRead,
    /// The document was parsed.
    Parsed(ParsedDocument),
}

/// The answer to a successful request.
pub struct ToolOutput {
    /// The request's source.
    pub source: String,
    /// The format the document was parsed as.
    pub format: DocumentFormat,
    /// The extracted text.
    pub content: String,
    /// The document's metadata.
    pub metadata: DocumentMetadata,
    /// The length of the content in bytes (UTF-8).
    pub content_length: usize,
}

/// What to do next.
pub enum RunAction {
    /// Download the document at this URL.
    Download(String),
    /// Read the local file at this path.
    ReadFile(String),
    /// Parse the loaded bytes in this format, on a blocking worker thread or not.
    Parse { format: DocumentFormat, on_worker: bool },
    /// Answer the request.
    Respond(ToolOutput),
    /// Fail the request.
    Fail(FormatError),
    /// The event does not fit the run's step; nothing to do.
    Ignore,
}

/// A run, by its characters.
pub struct RunState {
    pub source: Seq<char>,
    pub format_override: Option<Seq<char>>,
    pub phase: Phase,
}

/// An event, by its characters.
pub enum RunInput {
    Begin,
    Downloaded(Seq<char>),
    FileRead,
    Parsed(Seq<char>, DocumentMetadata),
}

/// An answer, by its characters.
pub struct OutputView {
    pub source: Seq<char>,
    pub format: DocumentFormat,
    pub content: Seq<char>,
    pub metadata: DocumentMetadata,
    pub content_length: usize,
}

/// An action, by its characters.
pub enum RunOutput {
    Download(Seq<char>),
    ReadFile(Seq<char>),
    Parse(DocumentFormat, bool),
    Respond(OutputView),
    Fail(FormatFailure),
    Ignore,
}

/// The characters of an optional string.
pub open spec fn opt_string_view(o: Option<String>) -> Option<Seq<char>> {
    match o {
        Some(s) => Some(s@),
        None => None,
    }
}

impl View for ToolRun {
    type V = RunState;

    open spec fn view(&self) -> RunState {
        RunState {
            source: self.source@,
            format_override: opt_string_view(self.format_override),
            phase: self.phase,
        }
    }
}

impl View for RunEvent {
    type V = RunInput;

    open spec fn view(&self) -> RunInput {
        match self {
            RunEvent::Begin => RunInput::Begin,
            RunEvent::Downloaded(path) => RunInput::Downloaded(path@),
            RunEvent::FileRead => RunInput::FileRead,
            RunEvent::Parsed(doc) => RunInput::Parsed(doc.text@, doc.metadata),
        }
    }
}

impl View for ToolOutput {
    type V = OutputView;

    open spec fn view(&self) -> OutputView {
        OutputView {
            source: self.source@,
            format: self.format,
            content: self.content@,
            metadata: self.metadata,
            content_length: self.content_length,
        }
    }
}

impl View for RunAction {
    type V = RunOutput;

    open spec fn view(&self) -> RunOutput {
        match self {
            RunAction::Download(u) => RunOutput::Download(u@),
            RunAction::ReadFile(p) => RunOutput::ReadFile(p@),
            RunAction::Parse { format, on_worker } => RunOutput::Parse(*format, *on_worker),
            RunAction::Respond(o) => RunOutput::Respond(o@),
            RunAction::Fail(e) => RunOutput::Fail(e@),
            RunAction::Ignore => RunOutput::Ignore,
        }
    }
}

/// The name a downloaded document was served under, from the path of the
/// URL it was served from: the path's last `/`-separated segment (empty when
/// the path ends in `/`), when the path starts with `/`; no name otherwise.
pub open spec fn served_name_of(path: Seq<char>) -> Option<Seq<char>> {
    if path.len() > 0 && path[0] == '/' {
        Some(path.skip(last_index_of(path, '/') + 1))
    } else {
        None
    }
}

/// The name a downloaded document was served under, from the path of the URL
/// it was served from.
pub fn served_name(url_path: &str) -> (r: Option<String>)
    ensures
        opt_string_view(r) == served_name_of(url_path@),
{
    let v = chars_of(url_path);
    let n = v.len();
    if n == 0 || v[0] != '/' {
        return None;
    }
    proof {
        assert(v@.subrange(0, n as int) =~= v@);
        lemma_last_index_of_bounds(v@, '/');
    }
    match rfind_char(&v, 0, n, '/') {
        Some(k) => {
            let name = url_path.substring_char(k + 1, n);
            assert(name@ =~= url_path@.skip(k + 1));
            Some(String::from_str(name))
        },
        None => None,
    }
}

/// A run of a request, before it starts.
pub open spec fn initial_run(source: Seq<char>, format_override: Option<Seq<char>>) -> RunState {
    RunState { source, format_override, phase: Phase::Start }
}

/// The run after the document's name is known: parse it in the resolved
/// format, or fail.
pub open spec fn after_load(run: RunState, name: Seq<char>) -> (RunState, RunOutput) {
    match resolved_format(name, run.format_override) {
        Ok(f) => (
            RunState { phase: Phase::AwaitingParse(f), ..run },
            RunOutput::Parse(f, parses_on_worker(f)),
        ),
        Err(e) => (RunState { phase: Phase::Finished, ..run }, RunOutput::Fail(e)),
    }
}

/// How a run answers an event: its next state and what to do.
pub open spec fn run_step(run: RunState, event: RunInput) -> (RunState, RunOutput) {
    match (run.phase, event) {
        (Phase::Start, RunInput::Begin) => if is_url_source(run.source) {
            (RunState { phase: Phase::AwaitingDownload, ..run }, RunOutput::Download(run.source))
        } else {
            (RunState { phase: Phase::AwaitingFile, ..run }, RunOutput::ReadFile(run.source))
        },
        (Phase::AwaitingDownload, RunInput::Downloaded(path)) => after_load(
            run,
            match served_name_of(path) {
                Some(n) => n,
                None => run.source,
            },
        ),
        (Phase::AwaitingFile, RunInput::FileRead) => after_load(run, run.source),
        (Phase::AwaitingParse(f), RunInput::Parsed(text, metadata)) => (
            RunState { phase: Phase::Finished, ..run },
            RunOutput::Respond(
                OutputView {
                    source: run.source,
                    format: f,
                    content: text,
                    metadata,
                    content_length: encode_utf8(text).len() as usize,
                },
            ),
        ),
        _ => (run, RunOutput::Ignore),
    }
}

impl ToolRun {
    /// A run of a request, before it starts.
    pub fn new(args: DocumentParserArgs) -> (run: Self)
        ensures
            run@ == initial_run(args.source@, opt_string_view(args.format)),
    {
        ToolRun { source: args.source, format_override: args.format, phase: Phase::Start }
    }

    fn resolve_loaded(&self, name: &str) -> (r: (Phase, RunAction))
        ensures
            (RunState { phase: r.0, ..self@ }, r.1@) == after_load(self@, name@),
    {
        let fmt = match &self.format_override {
            Some(o) => Some(o.as_str()),
            None => None,
        };
        match DocumentParser::resolve_format(name, fmt) {
            Ok(f) => {
                let on_worker = match f {
                    DocumentFormat::Pdf | DocumentFormat::Docx | DocumentFormat::Xlsx
                    | DocumentFormat::Pptx | DocumentFormat::Xml => true,
                    _ => false,
                };
                (Phase::AwaitingParse(f), RunAction::Parse { format: f, on_worker })
            },
            Err(e) => (Phase::Finished, RunAction::Fail(e)),
        }
    }

    /// Takes the next event: moves the run on and says what to do.
    pub fn step(self, event: RunEvent) -> (r: (ToolRun, RunAction))
        ensures
            (r.0@, r.1@) == run_step(self@, event@),
    {
        match (self.phase, event) {
            (Phase::Start, RunEvent::Begin) => {
                if DocumentParser::is_url(self.source.as_str()) {
                    let url = self.source.clone();
                    (ToolRun { phase: Phase::AwaitingDownload, ..self }, RunAction::Download(url))
                } else {
                    let path = self.source.clone();
                    (ToolRun { phase: Phase::AwaitingFile, ..self }, RunAction::ReadFile(path))
                }
            },
            (Phase::AwaitingDownload, RunEvent::Downloaded(path)) => {
                let (phase, action) = match served_name(path.as_str()) {
                    Some(n) => self.resolve_loaded(n.as_str()),
                    None => self.resolve_loaded(self.source.as_str()),
                };
                (ToolRun { phase, ..self }, action)
            },
            (Phase::AwaitingFile, RunEvent::FileRead) => {
                let (phase, action) = self.resolve_loaded(self.source.as_str());
                (ToolRun { phase, ..self }, action)
            },
            (Phase::AwaitingParse(f), RunEvent::Parsed(doc)) => {
                let content_length = doc.text.as_str().len();
                let output = ToolOutput {
                    source: self.source.clone(),
                    format: f,
                    content: doc.text,
                    metadata: doc.metadata,
                    content_length,
                };
                (ToolRun { phase: Phase::Finished, ..self }, RunAction::Respond(output))
            },
            (_, _) => (self, RunAction::Ignore),
        }
    }
}

/// An explicit format decides alone: the source plays no part in the format
/// of a request that names one.
pub proof fn lemma_override_decides(source1: Seq<char>, source2: Seq<char>, fmt: Seq<char>)
    ensures
        resolved_format(source1, Some(fmt)) == resolved_format(source2, Some(fmt)),
{
}

/// A finished run ignores every further event.
pub proof fn lemma_finished_run_ignores_events(run: RunState, event: RunInput)
    requires
        run.phase is Finished,
    ensures
        run_step(run, event) == (run, RunOutput::Ignore),
{
}

/// A request for a local file reads that file, then parses it in the format
/// resolved from its path and the override, or fails when there is none; a
/// parsed document is answered with its text, metadata and byte length, after
/// which the run is finished.
pub proof fn lemma_local_file_run(
    source: Seq<char>,
    format_override: Option<Seq<char>>,
    text: Seq<char>,
    metadata: DocumentMetadata,
)
    requires
        !is_url_source(source),
    ensures
        ({
            let (run1, action1) = run_step(initial_run(source, format_override), RunInput::Begin);
            let (run2, action2) = run_step(run1, RunInput::FileRead);
            &&& action1 == RunOutput::ReadFile(source)
            &&& match resolved_format(source, format_override) {
                Ok(f) => {
                    let (run3, action3) = run_step(run2, RunInput::Parsed(text, metadata));
                    &&& action2 == RunOutput::Parse(f, parses_on_worker(f))
                    &&& run3.phase is Finished
                    &&& action3 == RunOutput::Respond(
                        OutputView {
                            source,
                            format: f,
                            content: text,
                            metadata,
                            content_length: encode_utf8(text).len() as usize,
                        },
                    )
                },
                Err(e) => run2.phase is Finished && action2 == RunOutput::Fail(e),
            }
        }),
{
}

/// A request for a URL downloads it, then resolves the format from the name
/// the document was served under (the source when there is none) and the
/// override.
pub proof fn lemma_remote_run(
    source: Seq<char>,
    format_override: Option<Seq<char>>,
    served_path: Seq<char>,
)
    requires
        is_url_source(source),
    ensures
        ({
            let (run1, action1) = run_step(initial_run(source, format_override), RunInput::Begin);
            let (run2, action2) = run_step(run1, RunInput::Downloaded(served_path));
            let name = match served_name_of(served_path) {
                Some(n) => n,
                None => source,
            };
            &&& action1 == RunOutput::Download(source)
            &&& match resolved_format(name, format_override) {
                Ok(f) => run2.phase == Phase::AwaitingParse(f) && action2 == RunOutput::Parse(
                    f,
                    parses_on_worker(f),
                ),
                Err(e) => run2.phase is Finished && action2 == RunOutput::Fail(e),
            }
        }),
{
}

} // verus!
