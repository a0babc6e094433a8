//! Language intelligence core for LaTeX and BibTeX projects: a lossless,
//! error-tolerant syntax tree, a per-document fact sheet, a document graph
//! with compilation units, and a stamp-validated query database.
pub mod analysis;
pub mod bibtex_features;
pub mod bibtex_parser;
pub mod database;
pub mod extras;
pub mod features;
pub mod graph;
pub mod latex_parser;
pub mod lexer;
pub mod line_index;
pub mod options;
pub mod syntax;
pub mod text;
pub mod tree;
