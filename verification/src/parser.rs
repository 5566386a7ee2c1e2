//! The source language: its syntax tree and its tokens.

pub mod ast;
pub mod grammar;
pub mod lexer;
pub mod tokens;
