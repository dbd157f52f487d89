//! Structural overview of XML-like markup.
//!
//! The pipeline has four stages: a scanner that turns the input text into a
//! flat token stream, a tree builder that turns the tokens into a rooted tree
//! of elements held in an arena, a minimizer that collapses sibling subtrees
//! of the same shape down to the richest representative, and a renderer that
//! prints the reduced tree as a compact skeleton of the document.

pub mod block;
pub mod builder;
pub mod converter;
pub mod laws;
pub mod lexer;
pub mod minimize;
pub mod render;
pub mod token;

pub use block::Graph;
pub use block::Node;
pub use block::NodeOrToken;
pub use builder::lex_graph;
pub use converter::convert;
pub use converter::ConvertError;
pub use lexer::lex_token;
pub use lexer::lex_tokens;
pub use token::BuildError;
pub use token::Config;
pub use token::LexError;
pub use token::Tok;
pub use token::Token;
