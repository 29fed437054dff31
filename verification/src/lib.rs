//! Document format detection, text extraction from XML, Word and PowerPoint
//! documents, and the decisions of the document parsing tool.

pub mod document;
pub mod format;
pub mod office;
pub mod text;
pub mod tool;
pub mod xml;

pub use document::{DocumentMetadata, ParseError, ParsedDocument};
pub use format::DocumentFormat;
pub use office::{parse_docx, parse_pptx};
pub use tool::{parse_document, DocumentParser, DocumentParserArgs, FormatError, RunAction, RunEvent, ToolOutput, ToolRun};
pub use xml::{parse_xml, XmlEvent};
