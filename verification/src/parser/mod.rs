//! Parsing: the syntax tree built from capture results.
pub mod abstract_syntax_tree;
