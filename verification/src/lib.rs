//! A cross-module function call graph, built from the assembly text that a
//! compiler writes for each translation unit.
//!
//! The text of one unit is read in two passes: `classifier` finds which
//! symbols are functions, their linkage and their aliases; `scanner` walks
//! the function bodies and counts instructions and direct calls. `parse`
//! folds the result into the knowledge base of `knowledge`, whose
//! mathematical model is the graph of `graph`; `query` answers questions
//! about it, and `laws` states what holds of the whole. `command` adapts a
//! build's compile command so that it writes assembly text.
pub mod classifier;
pub mod command;
pub mod directive;
pub mod graph;
pub mod knowledge;
pub mod laws;
pub mod parse;
pub mod query;
pub mod scanner;
pub mod text;
