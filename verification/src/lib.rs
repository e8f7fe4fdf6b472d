//! Verified core of a Visio (VSDX) diagram engine: the parsed ShapeSheet
//! model, inheritance resolution, the formula grammar, connectivity and
//! geometry row helpers, collaborative-edit validation, merge decisions and
//! save materialization, package relationship discovery, and render-side
//! text diagnostics and document tables.

pub mod text;
pub mod seqs;
pub mod sheet;
pub mod resolve_model;
pub mod tree;
pub mod package;
pub mod inheritance;
pub mod names;
pub mod sections;
pub mod shapes;
pub mod edit_model;
pub mod edit_checks;
pub mod markup;
pub mod structure;
pub mod materialize;
pub mod draft;
pub mod render_text;
pub mod connectivity;
pub mod formula;
pub mod formula_lex;
pub mod formula_parse;
pub mod story;
pub mod snapshot;
pub mod merge;
pub mod palette;
pub mod seed;
pub mod remote;
