//! Text helpers shared by the readers.
pub mod parser;
pub mod parsing;
pub mod text;
