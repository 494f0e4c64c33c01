//! A language-aware comment lexer: it splits source text into code, string
//! literals, newlines and comments, then strips, counts or lists the comments.

pub mod emitter;
pub mod laws;
pub mod lexer;
pub mod report;
pub mod rules;
pub mod scan;
pub mod text;
pub mod token;
