//! A rule-driven lexer whose chains of rules are built from Lua scripts.
pub mod strmap;
pub mod pattern;
pub mod modification;
pub mod lexer;
pub mod build;
pub mod build_config;
pub mod parser;
