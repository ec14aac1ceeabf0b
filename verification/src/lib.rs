//! A verified lexer for mustache-style templates.
//!
//! The lexer turns a stream of characters into a sequence of tokens: runs of
//! plain text, a configurable pair of open/close tag delimiters, a handful of
//! single-character markers, and bare identifiers appearing between the
//! delimiters. Tokens are produced one at a time, on demand, by
//! [`lexer::Tokenlizer::read_token`].

pub mod lexer;
pub mod token;

pub use lexer::Tokenlizer;
pub use token::LexError;
pub use token::LexState;
pub use token::Token;
pub use token::TokenV;
pub use token::is_id;
