//! The whole conversion: scan, build, minimize, render.
//!
//! The caller hands in the document text and receives the rendered overview,
//! still wrapped in the synthetic root's tags (stripping them, like reading
//! and writing files, is the caller's business).  Any stage failure is
//! surfaced rather than swallowed.

use vstd::prelude::*;

use crate::block::GraphM;
use crate::builder::spec_build;
use crate::builder::lex_graph;
use crate::lexer::lex_tokens;
use crate::lexer::spec_tokens;
use crate::lexer::stuck_at;
use crate::minimize::minimized;
use crate::render::render_node;
use crate::token::BuildError;
use crate::token::Config;
use crate::token::LexError;

verus! {

/// A conversion fails where its scanner or its tree builder fails.
#[derive(Debug, PartialEq, Eq)]
pub enum ConvertError {
    Lex(LexError),
    Build(BuildError),
}

/// Convert a whole document to its rendered overview.
///
/// Succeeds exactly where the scanner and the builder succeed, and then
/// returns the rendering of the minimized tree from the synthetic root.
pub fn convert(file: String, config: Config) -> (r: Result<String, ConvertError>)
    ensures
        match r {
            Ok(out) => {
                &&& spec_tokens(file@, 0) matches Some(toks)
                &&& spec_build(toks) matches Ok(g)
                &&& out@ == render_node(minimized(g.nodes), 0)
            },
            Err(ConvertError::Lex(LexError::UnexpectedString(u))) => {
                &&& spec_tokens(file@, 0) is None
                &&& u@ == file@.subrange(stuck_at(file@, 0), file@.len() as int)
            },
            Err(ConvertError::Build(e)) => {
                &&& spec_tokens(file@, 0) matches Some(toks)
                &&& spec_build(toks) == Err::<GraphM, BuildError>(e)
            },
        },
{
    let tokens = match lex_tokens(file, config) {
        Ok(tokens) => tokens,
        Err(e) => {
            return Err(ConvertError::Lex(e));
        },
    };
    let mut graph = match lex_graph(tokens) {
        Ok(graph) => graph,
        Err(e) => {
            return Err(ConvertError::Build(e));
        },
    };
    graph.minimize();
    Ok(graph.print())
}

} // verus!
