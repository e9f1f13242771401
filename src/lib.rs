//! Reading and writing a LaTeX-flavoured linear math notation.
//!
//! - `expression`: the expression tree and its mathematical model.
//! - `grammar`: the grammar, stated as spec functions over characters.
//! - `parser`: the recursive-descent parser, proved to follow the grammar.
//! - `latex`: the writer, proved to produce the text that `render` describes.
//! - `laws`, `roundtrip`: what the parser reads back from the writer's text.

pub mod expression;
pub mod grammar;
pub mod parser;
pub mod latex;
pub mod laws;
pub mod roundtrip;
