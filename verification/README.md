# pdfmuse_core

A deterministic PDF/DOCX parser core, written in Verus: every function of the
library carries a `requires`/`ensures` contract that Verus proves.

Documents are lowered to one intermediate representation (`src/ir.rs`) whose
geometry is fixed point (hundredths of a PDF point), and rendered from it.

## Layout

- `src/ir.rs` — the intermediate representation.
- `src/pdf/` — `ToUnicode` CMap parsing, glyph-name resolution, loading and
  decrypting a PDF through `lopdf` with the object table's validation pass,
  and the naive per-page text path.
- `src/docx/` — DOCX parsing: the ZIP container (through `zip`), XML events
  (through `quick_xml`), style table, body, and table grid resolution.
- `src/layout/` — paragraph grouping, reading order, ruled-table
  reconstruction, and the stable sort they share.
- `src/markdown.rs` — Markdown rendering.
- `src/format.rs`, `src/cli.rs` — input-format recognition and the command
  line's argument handling.
- `src/backend.rs` — the pluggable vision-backend boundary.
- `app/` — the `pdfmuse` command line: file I/O, page sizes from the
  MediaBox (PDF reals), and JSON output.
- `tests/` — the test suite.

Each module states, as public proof functions, the laws it keeps (for
example: paragraphs partition the lines; reading order is a permutation of
the blocks; every grid position of a ruled table lies in a cell).
