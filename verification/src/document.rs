use vstd::prelude::*;

use crate::format::DocumentFormat;

verus! {

/// Metadata of a parsed document.
#[derive(Debug, Clone, Copy, PartialEq, Eq, Structural)]
pub struct DocumentMetadata {
    /// The format the document was parsed as.
    pub format: DocumentFormat,
    /// The number of slides, for presentations.
    pub slide_count: Option<usize>,
}

/// The result of parsing a document.
#[derive(Debug, Clone)]
pub struct ParsedDocument {
    /// Extracted text content.
    pub text: String,
    /// Metadata (format, slide count).
    pub metadata: DocumentMetadata,
}

/// Why a document could not be parsed.
#[derive(Debug)]
pub enum ParseError {
    /// The bytes are not a well formed document of the format.
    Format(String),
    /// The bytes are not valid UTF-8.
    InvalidUtf8,
    /// Reading a part of the document failed.
    Io(String),
}

/// A parse error, by the characters of its message.
pub enum ParseFailure {
    Format(Seq<char>),
    InvalidUtf8,
    Io(Seq<char>),
}

impl View for ParseError {
    type V = ParseFailure;

    open spec fn view(&self) -> ParseFailure {
        match self {
            ParseError::Format(m) => ParseFailure::Format(m@),
            ParseError::InvalidUtf8 => ParseFailure::InvalidUtf8,
            ParseError::Io(m) => ParseFailure::Io(m@),
        }
    }
}

/// A parse result, by the characters of its text.
pub open spec fn parse_outcome(r: Result<ParsedDocument, ParseError>) -> Result<
    (Seq<char>, DocumentMetadata),
    ParseFailure,
> {
    match r {
        Ok(doc) => Ok((doc.text@, doc.metadata)),
        Err(e) => Err(e@),
    }
}

} // verus!
