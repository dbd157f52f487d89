//! Lexical tokens, their mathematical model, and the error types of the
//! scanner and the tree builder.

use vstd::prelude::*;

verus! {

/// One lexical unit of the markup grammar, as produced by the scanner.
#[derive(Debug, PartialEq, Eq)]
pub enum Token {
    /// `<name`, the start of an opening tag.
    TagOpenStart(String),
    /// `</name`, the start of a closing tag.
    TagCloseStart(String),
    /// `/>`.
    TagSelfClosing,
    /// `>`.
    TagClosing,
    /// `name=`, an attribute key (the `=` is consumed, the name kept).
    Key(String),
    /// A double-quoted literal; the quotes are consumed, the contents kept.
    StringLiteral(String),
    /// `<!-- contents -->`; the markers are consumed, the contents kept.
    Comment(String),
    /// A single space or tab character.
    Whitespace,
    /// A single newline character.
    Newline,
    /// A run of plain text between tags.
    Text(String),
}

/// The mathematical model of a [`Token`]: the same shape over `Seq<char>`.
pub enum Tok {
    TagOpenStart(Seq<char>),
    TagCloseStart(Seq<char>),
    TagSelfClosing,
    TagClosing,
    Key(Seq<char>),
    StringLiteral(Seq<char>),
    Comment(Seq<char>),
    Whitespace,
    Newline,
    Text(Seq<char>),
}

impl View for Token {
    type V = Tok;

    open spec fn view(&self) -> Tok {
        match self {
            Token::TagOpenStart(name) => Tok::TagOpenStart(name@),
            Token::TagCloseStart(name) => Tok::TagCloseStart(name@),
            Token::TagSelfClosing => Tok::TagSelfClosing,
            Token::TagClosing => Tok::TagClosing,
            Token::Key(name) => Tok::Key(name@),
            Token::StringLiteral(contents) => Tok::StringLiteral(contents@),
            Token::Comment(contents) => Tok::Comment(contents@),
            Token::Whitespace => Tok::Whitespace,
            Token::Newline => Tok::Newline,
            Token::Text(contents) => Tok::Text(contents@),
        }
    }
}

impl DeepView for Token {
    type V = Tok;

    open spec fn deep_view(&self) -> Tok {
        self.view()
    }
}

/// A token is a plain value, so its clone equals it.
impl Clone for Token {
    fn clone(&self) -> (res: Token)
        ensures
            res == *self,
    {
        match self {
            Token::TagOpenStart(name) => Token::TagOpenStart(name.clone()),
            Token::TagCloseStart(name) => Token::TagCloseStart(name.clone()),
            Token::TagSelfClosing => Token::TagSelfClosing,
            Token::TagClosing => Token::TagClosing,
            Token::Key(name) => Token::Key(name.clone()),
            Token::StringLiteral(contents) => Token::StringLiteral(contents.clone()),
            Token::Comment(contents) => Token::Comment(contents.clone()),
            Token::Whitespace => Token::Whitespace,
            Token::Newline => Token::Newline,
            Token::Text(contents) => Token::Text(contents.clone()),
        }
    }
}

/// The scanner failed: no recognizer matched at the current position.
/// Carries the unconsumed remainder of the input.
#[derive(Debug, PartialEq, Eq, Clone)]
pub enum LexError {
    UnexpectedString(String),
}

/// The tree builder failed.
#[derive(Debug, PartialEq, Eq, Structural, Clone, Copy)]
pub enum BuildError {
    /// The token sequence was empty.
    EmptyInput,
    /// An opening or closing tag never found its terminating marker, or an
    /// opened element was never closed before the end of the document.
    NoClosingTag,
}

/// Configuration handed through the pipeline by the surrounding tool.
/// The verbosity flag is a pass-through extension point; the scanner does
/// not read it.
#[derive(Debug, PartialEq, Eq, Structural, Clone, Copy)]
pub struct Config {
    pub verbose: bool,
}

impl Config {
    pub fn new(verbose: bool) -> (c: Config)
        ensures
            c.verbose == verbose,
    {
        Config { verbose }
    }
}

} // verus!
