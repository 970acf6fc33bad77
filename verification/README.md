# docxkit

A library for reading, editing and writing Word documents (`.docx`),
written in Verus.

- `src/` is the library: the OPC package model (parts, content types,
  relationships), the WordprocessingML element model (paragraphs, runs,
  properties, tables, drawings, headers and footers, footnotes, styles,
  settings, document properties, content controls, charts, shapes), XML
  writing, XML reading over quick-xml, placeholder replacement across runs,
  style resolution, numbering, HTML and Markdown export, syntax
  highlighting and a line diff. Every function there is verified against
  its contract; how much a contract says differs. The writers state the
  bytes they produce exactly. Every reader (runs, paragraphs,
  hyperlinks, cells, rows and tables, drawings and their pictures, headers
  and footers, footnotes, document defaults, styles, settings, themes,
  document and application properties, relationships, content types, and
  all property elements) states what it reads, and when it fails, as a
  relation over the events that quick-xml hands out, which are named, not
  stated; so do the placeholder replacement in chart parts and in the text
  boxes of document parts. Regular-expression replacement states the text
  and count it gives over the matches the regex crate finds, which are
  named too.
- Calls into quick-xml, regex and a few std functions go through small
  trusted wrappers (in `src/xml.rs`, `src/xml_read.rs`, `src/chars.rs`,
  `src/syntax.rs` and `src/placeholder/regex_replace.rs`), each with a doc
  comment saying what its contract claims and what it leaves unsaid.
- `app/` is the command-line front end: zip archive input and output and
  argument handling.
- `tests/` holds the tests.
