//! The lexer: rules, chains and the consumers that check text against them.
pub mod capture;
pub mod consumer;
