# document_parsing

Document format detection and text extraction, verified with Verus.

- `src/format.rs`: `DocumentFormat`, detection from a path or URL (query
  string stripped, Unix file name rules, extension lowercased), names.
- `src/xml.rs`: XML events read through quick-xml, and the text of a generic
  XML document.
- `src/office.rs`: Word (DOCX) and PowerPoint (PPTX) text extraction from the
  zip archive and the XML parts inside it.
- `src/tool.rs`: the decisions of the `parse_document` tool: format
  resolution and a state machine for one run (fetch or read, resolve, parse,
  answer).
- `src/document.rs`, `src/text.rs`: result types and string utilities.
- `app/lib.rs`: the autoagents tool around the library: JSON arguments, file
  and network access, worker threads, the JSON answer.

Calls into quick-xml, zip and a few std functions go through small trusted
wrappers whose contracts name the results they stand for.
