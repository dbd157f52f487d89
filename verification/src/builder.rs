//! The tree builder: a single left-to-right pass over the token stream with
//! one "current node" cursor.
//!
//! Transition rules, keyed on the token at the read position:
//! an opening-tag start creates a child holding every attribute key up to the
//! next closing or self-closing marker and descends, resuming at that marker;
//! a closing-tag start discards through the next closing marker and ascends
//! (the closing name is not validated against the open element); a bare
//! closing marker gathers the leaf tokens up to the next tag start into the
//! current node; a self-closing marker ascends; any other token becomes a
//! leaf of the current node.  A document that ends with the cursor away from
//! the root has an unclosed element and is rejected.

use vstd::prelude::*;

use crate::block::spec_add_node;
use crate::block::spec_add_token;
use crate::block::spec_close;
use crate::block::spec_init;
use crate::block::lemma_add_node_wf;
use crate::block::lemma_add_token_wf;
use crate::block::lemma_close_wf;
use crate::block::Graph;
use crate::block::GraphM;
use crate::token::BuildError;
use crate::token::Tok;
use crate::token::Token;

verus! {

// ---------------------------------------------------------------------------
// Scans over the token stream
// ---------------------------------------------------------------------------

/// A token that ends an opening tag: `>` or `/>`.
pub open spec fn is_tag_end(t: Tok) -> bool {
    t is TagClosing || t is TagSelfClosing
}

/// A token that starts a tag: `<name` or `</name`.
pub open spec fn is_tag_start(t: Tok) -> bool {
    t is TagOpenStart || t is TagCloseStart
}

/// A token that may be embedded as a leaf by the closing-marker rule.
pub open spec fn is_leaf_tok(t: Tok) -> bool {
    t is Text || t is Whitespace || t is Newline || t is Comment
}

/// The first position `>= i` holding `>` or `/>`, if any.
pub open spec fn find_tag_end(toks: Seq<Tok>, i: int) -> Option<int>
    decreases toks.len() - i,
{
    if i >= toks.len() {
        None
    } else if is_tag_end(toks[i]) {
        Some(i)
    } else {
        find_tag_end(toks, i + 1)
    }
}

/// The first position `>= i` holding `>`, if any.
pub open spec fn find_closing(toks: Seq<Tok>, i: int) -> Option<int>
    decreases toks.len() - i,
{
    if i >= toks.len() {
        None
    } else if toks[i] is TagClosing {
        Some(i)
    } else {
        find_closing(toks, i + 1)
    }
}

/// The first position `>= i` holding a tag start, if any.
pub open spec fn find_tag_start(toks: Seq<Tok>, i: int) -> Option<int>
    decreases toks.len() - i,
{
    if i >= toks.len() {
        None
    } else if is_tag_start(toks[i]) {
        Some(i)
    } else {
        find_tag_start(toks, i + 1)
    }
}

/// The names of the `Key` tokens strictly between positions `i` and `j`, in
/// order of appearance, duplicates preserved.
pub open spec fn keys_between(toks: Seq<Tok>, i: int, j: int) -> Seq<Seq<char>>
    decreases j - i,
{
    if j <= i {
        Seq::empty()
    } else {
        keys_between(toks, i, j - 1) + match toks[j - 1] {
            Tok::Key(k) => seq![k],
            _ => Seq::empty(),
        }
    }
}

/// Append every leaf-kind token of `toks[i..j]` to the current node, in
/// order; other token kinds in the range are skipped.
pub open spec fn add_leaves(g: GraphM, toks: Seq<Tok>, i: int, j: int) -> GraphM
    decreases j - i,
{
    if j <= i {
        g
    } else {
        let g2 = add_leaves(g, toks, i, j - 1);
        if is_leaf_tok(toks[j - 1]) {
            spec_add_token(g2, toks[j - 1])
        } else {
            g2
        }
    }
}

pub proof fn lemma_find_tag_end(toks: Seq<Tok>, i: int)
    ensures
        match find_tag_end(toks, i) {
            Some(j) => i <= j && j < toks.len() && is_tag_end(toks[j]),
            None => true,
        },
    decreases toks.len() - i,
{
    if i >= toks.len() {
    } else if is_tag_end(toks[i]) {
    } else {
        lemma_find_tag_end(toks, i + 1);
    }
}

pub proof fn lemma_find_closing(toks: Seq<Tok>, i: int)
    ensures
        match find_closing(toks, i) {
            Some(j) => i <= j && j < toks.len() && toks[j] is TagClosing,
            None => true,
        },
    decreases toks.len() - i,
{
    if i >= toks.len() {
    } else if toks[i] is TagClosing {
    } else {
        lemma_find_closing(toks, i + 1);
    }
}

pub proof fn lemma_find_tag_start(toks: Seq<Tok>, i: int)
    ensures
        match find_tag_start(toks, i) {
            Some(j) => i <= j && j < toks.len() && is_tag_start(toks[j]),
            None => true,
        },
    decreases toks.len() - i,
{
    if i >= toks.len() {
    } else if is_tag_start(toks[i]) {
    } else {
        lemma_find_tag_start(toks, i + 1);
    }
}

// ---------------------------------------------------------------------------
// The builder itself
// ---------------------------------------------------------------------------

/// One pass of the builder from position `i` with arena `g`.
pub open spec fn spec_build_from(g: GraphM, toks: Seq<Tok>, i: int) -> Result<GraphM, BuildError>
    decreases toks.len() - i,
    via spec_build_from_dec
{
    if i >= toks.len() {
        if g.current == 0 {
            Ok(g)
        } else {
            Err(BuildError::NoClosingTag)
        }
    } else {
        match toks[i] {
            Tok::TagOpenStart(name) => match find_tag_end(toks, i + 1) {
                None => Err(BuildError::NoClosingTag),
                Some(j) => spec_build_from(
                    spec_add_node(g, name, keys_between(toks, i + 1, j)),
                    toks,
                    j,
                ),
            },
            Tok::TagCloseStart(name) => match find_closing(toks, i + 1) {
                None => Err(BuildError::NoClosingTag),
                Some(j) => spec_build_from(spec_close(g), toks, j + 1),
            },
            Tok::TagClosing => match find_tag_start(toks, i + 1) {
                None => if g.current == 0 {
                    Ok(g)
                } else {
                    Err(BuildError::NoClosingTag)
                },
                Some(j) => spec_build_from(add_leaves(g, toks, i + 1, j), toks, j),
            },
            Tok::TagSelfClosing => spec_build_from(spec_close(g), toks, i + 1),
            t => spec_build_from(spec_add_token(g, t), toks, i + 1),
        }
    }
}

#[via_fn]
proof fn spec_build_from_dec(g: GraphM, toks: Seq<Tok>, i: int) {
    lemma_find_tag_end(toks, i + 1);
    lemma_find_closing(toks, i + 1);
    lemma_find_tag_start(toks, i + 1);
}

/// What the whole builder yields on a token stream.
pub open spec fn spec_build(toks: Seq<Tok>) -> Result<GraphM, BuildError> {
    if toks.len() == 0 {
        Err(BuildError::EmptyInput)
    } else {
        spec_build_from(spec_init(), toks, 0)
    }
}

// ---------------------------------------------------------------------------
// Executable scans
// ---------------------------------------------------------------------------

fn find_tag_end_tok(tokens: &Vec<Token>, from: usize) -> (r: Option<usize>)
    requires
        from <= tokens@.len(),
    ensures
        match r {
            Some(j) => find_tag_end(tokens.deep_view(), from as int) == Some(j as int) && from <= j
                < tokens@.len(),
            None => find_tag_end(tokens.deep_view(), from as int) is None,
        },
{
    let n = tokens.len();
    let mut i: usize = from;
    while i < n
        invariant
            from <= i <= n,
            n == tokens@.len(),
            find_tag_end(tokens.deep_view(), from as int) == find_tag_end(
                tokens.deep_view(),
                i as int,
            ),
        decreases n - i,
    {
        match &tokens[i] {
            Token::TagClosing => {
                return Some(i);
            },
            Token::TagSelfClosing => {
                return Some(i);
            },
            _ => {},
        }
        i = i + 1;
    }
    None
}

fn find_closing_tok(tokens: &Vec<Token>, from: usize) -> (r: Option<usize>)
    requires
        from <= tokens@.len(),
    ensures
        match r {
            Some(j) => find_closing(tokens.deep_view(), from as int) == Some(j as int) && from <= j
                < tokens@.len(),
            None => find_closing(tokens.deep_view(), from as int) is None,
        },
{
    let n = tokens.len();
    let mut i: usize = from;
    while i < n
        invariant
            from <= i <= n,
            n == tokens@.len(),
            find_closing(tokens.deep_view(), from as int) == find_closing(
                tokens.deep_view(),
                i as int,
            ),
        decreases n - i,
    {
        match &tokens[i] {
            Token::TagClosing => {
                return Some(i);
            },
            _ => {},
        }
        i = i + 1;
    }
    None
}

fn find_tag_start_tok(tokens: &Vec<Token>, from: usize) -> (r: Option<usize>)
    requires
        from <= tokens@.len(),
    ensures
        match r {
            Some(j) => find_tag_start(tokens.deep_view(), from as int) == Some(j as int) && from
                <= j < tokens@.len(),
            None => find_tag_start(tokens.deep_view(), from as int) is None,
        },
{
    let n = tokens.len();
    let mut i: usize = from;
    while i < n
        invariant
            from <= i <= n,
            n == tokens@.len(),
            find_tag_start(tokens.deep_view(), from as int) == find_tag_start(
                tokens.deep_view(),
                i as int,
            ),
        decreases n - i,
    {
        match &tokens[i] {
            Token::TagOpenStart(name) => {
                return Some(i);
            },
            Token::TagCloseStart(name) => {
                return Some(i);
            },
            _ => {},
        }
        i = i + 1;
    }
    None
}

/// Collect the names of the `Key` tokens of `tokens[from..to]`, in order.
fn collect_keys(tokens: &Vec<Token>, from: usize, to: usize) -> (r: Vec<String>)
    requires
        from <= to <= tokens@.len(),
    ensures
        r.deep_view() == keys_between(tokens.deep_view(), from as int, to as int),
{
    let mut r: Vec<String> = Vec::new();
    let mut k: usize = from;
    while k < to
        invariant
            from <= k <= to <= tokens@.len(),
            r.deep_view() == keys_between(tokens.deep_view(), from as int, k as int),
        decreases to - k,
    {
        let ghost prev = r.deep_view();
        match &tokens[k] {
            Token::Key(name) => {
                r.push(name.clone());
                proof {
                    assert(r.deep_view() =~= prev.push(tokens@[k as int]@->Key_0));
                    assert(r.deep_view() =~= keys_between(
                        tokens.deep_view(),
                        from as int,
                        k + 1 as int,
                    ));
                }
            },
            _ => {},
        }
        k = k + 1;
    }
    r
}

// ---------------------------------------------------------------------------
// The executable builder
// ---------------------------------------------------------------------------

/// Build the tree from the token stream.
///
/// Returns exactly what `spec_build` names on the stream's model: the arena
/// on success, `EmptyInput` on an empty stream, `NoClosingTag` where a tag
/// never finds its terminating marker or an element stays open at the end of
/// the document.
pub fn lex_graph(tokens: Vec<Token>) -> (r: Result<Graph, BuildError>)
    ensures
        match r {
            Ok(g) => spec_build(tokens.deep_view()) == Ok::<GraphM, BuildError>(g@) && g.wf(),
            Err(e) => spec_build(tokens.deep_view()) == Err::<GraphM, BuildError>(e),
        },
{
    let ghost toks = tokens.deep_view();
    let n = tokens.len();
    if n == 0 {
        return Err(BuildError::EmptyInput);
    }
    let mut graph = Graph::new();
    let mut i: usize = 0;
    loop
        invariant
            0 <= i <= n,
            n == tokens@.len(),
            toks == tokens.deep_view(),
            graph.wf(),
            spec_build_from(graph@, toks, i as int) == spec_build(toks),
        decreases n - i,
    {
        if i >= n {
            if graph.current == 0 {
                return Ok(graph);
            } else {
                return Err(BuildError::NoClosingTag);
            }
        }
        proof {
            assert(toks[i as int] == tokens@[i as int]@);
        }
        match &tokens[i] {
            Token::TagOpenStart(name) => {
                match find_tag_end_tok(&tokens, i + 1) {
                    None => {
                        return Err(BuildError::NoClosingTag);
                    },
                    Some(j) => {
                        let keys = collect_keys(&tokens, i + 1, j);
                        graph.add_node(name, &keys);
                        i = j;
                    },
                }
            },
            Token::TagCloseStart(name) => {
                match find_closing_tok(&tokens, i + 1) {
                    None => {
                        return Err(BuildError::NoClosingTag);
                    },
                    Some(j) => {
                        graph.close_current();
                        i = j + 1;
                    },
                }
            },
            Token::TagClosing => {
                match find_tag_start_tok(&tokens, i + 1) {
                    None => {
                        if graph.current == 0 {
                            return Ok(graph);
                        } else {
                            return Err(BuildError::NoClosingTag);
                        }
                    },
                    Some(j) => {
                        let ghost g0 = graph@;
                        let mut k: usize = i + 1;
                        while k < j
                            invariant
                                i + 1 <= k <= j <= n,
                                n == tokens@.len(),
                                toks == tokens.deep_view(),
                                graph.wf(),
                                graph@ == add_leaves(g0, toks, i + 1 as int, k as int),
                            decreases j - k,
                        {
                            proof {
                                assert(toks[k as int] == tokens@[k as int]@);
                            }
                            match &tokens[k] {
                                Token::Text(contents) => graph.add_token(&tokens[k]),
                                Token::Whitespace => graph.add_token(&tokens[k]),
                                Token::Newline => graph.add_token(&tokens[k]),
                                Token::Comment(contents) => graph.add_token(&tokens[k]),
                                _ => {},
                            }
                            k = k + 1;
                        }
                        i = j;
                    },
                }
            },
            Token::TagSelfClosing => {
                graph.close_current();
                i = i + 1;
            },
            t => {
                graph.add_token(t);
                i = i + 1;
            },
        }
    }
}

} // verus!
