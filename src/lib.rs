pub mod format;
pub mod laws;
pub mod lexer;
pub mod token;

pub use format::{apply_insertions, indent_tokens, minify_json, plan_insertions, prettify_json, render};
pub use lexer::{tokenize, JSONLexer, LexError};
pub use token::{Token, TokenKind};
