# universal_converter

The core of a desktop file converter (images, SVG, PDF, Markdown, HTML,
DOCX, PPTX, spreadsheets, CSV and JSON), written in Verus: the decisions and
text transformations carry contracts that Verus proves.

- `src/` is the verified library.
  - `chars`: white space, trimming, line and word splitting, joining.
  - `wrap`: word wrapping to a number of columns and pagination of text
    for PDF pages.
  - `text_engine`: page layout of text, visible text of HTML, plain text and
    HTML pages of Markdown.
  - `office_engine`: CSV cell protection and quoting, HTML escaping, text of
    DOCX/PPTX archives, spreadsheet and CSV exports.
  - `conversion_engine`: image formats, the formats offered per input,
    output paths and name sanitizing, SVG rendering to pixels, thumbnail
    data URLs.
  - `pdf_engine`: PDF string decoding, page text from text operators,
    document text, its HTML form, text merges, page selection for splits.
  - `pdf_merge`: object renumbering, the chain of page-tree ancestors,
    inherited page attributes and page-tree updates for page merges.
  - `commands`: which conversion a request asks for (exactly the offered
    ones), JSON to CSV, merge modes, distinct ZIP entry names.
- `app/` is the unverified shell around it: file I/O, rendering with
  printpdf and image, reading spreadsheets and PDF files, the command entry
  points.
- `tests/` runs the library on concrete inputs.

The outside parsers and encoders (quick-xml, zip, csv, serde_json,
pulldown-cmark, base64, resvg) are reached through small trusted wrappers
in `src/` whose contracts state or name their results.
