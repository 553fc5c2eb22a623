//! Front end of the Rose language: a scanner that turns source text into
//! tokens, a closed syntax tree with canonical printing, and a precedence
//! climbing parser that builds the tree and collects syntax errors.
pub mod token;
pub mod lexer;
pub mod ast;
pub mod parser;
pub mod round_trip;
pub mod recovery;
