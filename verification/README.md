# vsdx

A verified core for working with Visio (VSDX) diagrams, written in Verus.

`src/` is the library. Its functions carry contracts that Verus proves,
except six small wrappers around std (Unicode case mapping, `char`
classification, `Debug` quoting of a string, `String::push`), whose contracts
are trusted and name what the std call returns:

- `sheet`, `tree`, `package`, `resolve_model`: the parsed ShapeSheet model
  (cells, rows, sections, shapes, sheets), shape trees in pre-order, and the
  package's part catalogue and relationship lookups.
- `inheritance`, `shapes`, `sections`, `names`: inheritance resolution — which
  layer (the shape, its masters, its styles, the page, the document or a
  default) supplies each effective cell, section row and text token.
- `formula`, `formula_lex`, `formula_parse`: the ShapeSheet formula grammar,
  from characters to tokens to trees, within depth, node and token limits.
- `edit_model`, `edit_checks`, `draft`, `markup`, `structure`, `merge`,
  `seed`, `remote`: collaborative editing — client and update checks, shape
  drafts, shape markup, the structural edits a save derives, the decisions a
  merge of concurrent edits makes, the cell records a session seeds for a
  shape, and the checks on a peer's update.
- `materialize`, `story`, `snapshot`: projecting a session snapshot back onto
  the parsed model before a save.
- `render_text`, `palette`, `connectivity`: renderer-side text runs,
  diagnostics and budgets, the document colour and font tables, and glue
  bookkeeping.

`app/` holds what the library leaves to ordinary Rust: JSON forms of the
editing records, an error type with display messages, and the floating-point
parts (unit scales, number values, formula evaluation, palette indices).

`tests/` exercises the library from outside.
