//! The template language: its tokens, its syntax tree, and inheritance
//! between templates.

pub mod blocks;
pub mod inheritance;
pub mod lexer;
pub mod parser;
