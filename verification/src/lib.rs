//! A verified minifier for GraphQL source documents.
//!
//! The library strips ignored characters (whitespace, commas, comments) from
//! a GraphQL document while preserving its exact lexical meaning, inserting
//! only the minimal spacing needed to keep adjacent tokens apart, and
//! dedenting and re-printing block strings.

pub mod block_string;
pub mod lexer;
pub mod minify;

pub use lexer::LexingError;
pub use lexer::Scan;
pub use lexer::Token;
pub use lexer::TokenKind;
pub use minify::minify;
