//! Compiles Arknights story scripts into readable plain text: a lexer for
//! script lines, a parser from scripts to events, and a renderer from events
//! to text, each verified against a specification.

pub mod lexer;
pub mod parser;
pub mod renderer;
pub mod story;
pub mod text;
