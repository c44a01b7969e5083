//! Sentence extraction from Markdown articles.
//!
//! A document is read line by line. Headings, front matter and the fence
//! lines of code blocks are left out; prose is cut into sentences at every
//! period that is followed by a space or ends a line; the lines of a code
//! block become one sentence.
pub mod laws;
pub mod lines;
pub mod loader;
pub mod parser;
pub mod rules;
pub mod text;

pub use parser::{get_sentences, parse, ParserState};
