//! Laws of the pipeline, stated and proved over the models that the
//! executable functions' contracts use.

use vstd::prelude::*;

use crate::block::spec_add_node;
use crate::block::spec_close;
use crate::block::spec_init;
use crate::block::wf_nodes;
use crate::block::ChildM;
use crate::block::NodeM;
use crate::builder::find_tag_end;
use crate::builder::keys_between;
use crate::builder::spec_build;
use crate::builder::spec_build_from;
use crate::lexer::close_start_matches;
use crate::lexer::closing_matches;
use crate::lexer::cmt_open_at;
use crate::lexer::name_boundary;
use crate::lexer::name_end;
use crate::lexer::open_start_matches;
use crate::lexer::self_closing_matches;
use crate::lexer::spec_token;
use crate::lexer::spec_tokens;
use crate::lexer::whitespace_matches;
use crate::minimize::child_count;
use crate::minimize::chosen;
use crate::minimize::filtered_children;
use crate::minimize::keep_child;
use crate::minimize::kept;
use crate::minimize::lemma_filtered_entries;
use crate::minimize::lemma_filtered_id;
use crate::minimize::lemma_filtered_keeps;
use crate::minimize::lemma_filtered_member;
use crate::minimize::lemma_filtered_unique;
use crate::minimize::lemma_minimized_wf;
use crate::minimize::minimized;
use crate::minimize::minimized_children;
use crate::minimize::shape_key;
use crate::minimize::wins;
use crate::render::render_children;
use crate::render::render_node;
use crate::token::Tok;

verus! {

/// Within one parent, each shape group has at most one chosen
/// representative.
pub proof fn lemma_chosen_unique(nodes: Seq<NodeM>, p: int, c1: int, c2: int)
    requires
        wf_nodes(nodes),
        0 <= p < nodes.len(),
        chosen(nodes, p, c1),
        chosen(nodes, p, c2),
        shape_key(nodes[c1]) == shape_key(nodes[c2]),
    ensures
        c1 == c2,
{
    let ch = nodes[p].children;
    let pi1 = choose|pi: int|
        0 <= pi < ch.len() && (#[trigger] ch[pi]) == ChildM::N(c1) && wins(nodes, p, pi);
    let pi2 = choose|pi: int|
        0 <= pi < ch.len() && (#[trigger] ch[pi]) == ChildM::N(c2) && wins(nodes, p, pi);
    assert(ch[pi1] is N && shape_key(nodes[ch[pi1]->N_0]) == shape_key(nodes[c2]));
    assert(ch[pi2] is N && shape_key(nodes[ch[pi2]->N_0]) == shape_key(nodes[c1]));
    assert(child_count(nodes, c1) < child_count(nodes, c2) || (child_count(nodes, c1)
        == child_count(nodes, c2) && pi2 <= pi1));
    assert(child_count(nodes, c2) < child_count(nodes, c1) || (child_count(nodes, c2)
        == child_count(nodes, c1) && pi1 <= pi2));
    assert(pi1 == pi2);
}

/// After one round of minimization the choice does not change: under a
/// surviving parent, a node is chosen among the reduced child list exactly
/// where it was chosen among the original one.
pub proof fn lemma_chosen_roundtwo(nodes: Seq<NodeM>, p: int, i: int)
    requires
        wf_nodes(nodes),
        0 <= p < nodes.len(),
        kept(nodes, p),
    ensures
        chosen(minimized(nodes), p, i) == chosen(nodes, p, i),
{
    let m = minimized(nodes);
    let ch = nodes[p].children;
    let f = filtered_children(nodes, p, ch);
    assert(m[p].children == f);
    lemma_filtered_keeps(nodes, p, ch);
    lemma_filtered_entries(nodes, p, ch);
    assert forall|k1: int, k2: int|
        #![trigger ch[k1], ch[k2]]
        0 <= k1 < ch.len() && 0 <= k2 < ch.len() && ch[k1] is N && ch[k1] == ch[k2] implies k1
        == k2 by {}
    lemma_filtered_unique(nodes, p, ch);
    if chosen(nodes, p, i) {
        let pi = choose|pi: int|
            0 <= pi < ch.len() && (#[trigger] ch[pi]) == ChildM::N(i) && wins(nodes, p, pi);
        assert((p as int) < i < nodes.len());
        lemma_filtered_member(nodes, p, ch, pi);
        let k2 = choose|k2: int| 0 <= k2 < f.len() && (#[trigger] f[k2]) == ChildM::N(i);
        assert forall|k: int|
            0 <= k < m[p].children.len() && (#[trigger] m[p].children[k]) is N && shape_key(
                m[m[p].children[k]->N_0],
            ) == shape_key(m[i]) implies child_count(m, m[p].children[k]->N_0) < child_count(m, i)
            || (child_count(m, m[p].children[k]->N_0) == child_count(m, i) && k2 <= k) by {
            let j = f[k]->N_0;
            assert(keep_child(nodes, p, f[k]));
            assert(chosen(nodes, p, j));
            let o = choose|o: int| 0 <= o < ch.len() && ch[o] == f[k];
            assert((p as int) < j < nodes.len());
            assert(shape_key(m[j]) == shape_key(nodes[j]));
            assert(shape_key(m[i]) == shape_key(nodes[i]));
            lemma_chosen_unique(nodes, p, j, i);
            assert(f[k] == f[k2]);
            assert(k == k2);
        }
        assert(wins(m, p, k2));
        assert(chosen(m, p, i));
    }
    if chosen(m, p, i) {
        let k2 = choose|k2: int|
            0 <= k2 < m[p].children.len() && (#[trigger] m[p].children[k2]) == ChildM::N(i) && wins(
                m,
                p,
                k2,
            );
        assert(keep_child(nodes, p, f[k2]));
        assert(chosen(nodes, p, i));
    }
}

/// A second round of minimization drops no further node: the survivors of
/// one round all survive the next.
pub proof fn lemma_kept_after(nodes: Seq<NodeM>, i: int)
    requires
        wf_nodes(nodes),
    ensures
        kept(minimized(nodes), i) == kept(nodes, i),
    decreases
            (if i > 0 {
                i
            } else {
                0int
            }),
{
    let m = minimized(nodes);
    if i <= 0 || i >= nodes.len() {
    } else {
        assert(m[i].parent == nodes[i].parent);
        match nodes[i].parent {
            Some(p) => {
                if 0 <= p < i {
                    lemma_kept_after(nodes, p);
                    if kept(nodes, p) {
                        lemma_chosen_roundtwo(nodes, p, i);
                    }
                }
            },
            None => {},
        }
    }
}

/// Minimization is idempotent: running it on an already-minimized arena
/// changes nothing.
pub proof fn lemma_minimize_idempotent(nodes: Seq<NodeM>)
    requires
        wf_nodes(nodes),
    ensures
        minimized(minimized(nodes)) == minimized(nodes),
{
    let m = minimized(nodes);
    lemma_minimized_wf(nodes);
    assert forall|i: int| 0 <= i < m.len() implies minimized(m)[i] =~~= m[i] by {
        lemma_kept_after(nodes, i);
        if kept(nodes, i) {
            let ch = nodes[i].children;
            lemma_filtered_keeps(nodes, i, ch);
            assert(m[i].children == filtered_children(nodes, i, ch));
            assert forall|k: int| 0 <= k < m[i].children.len() implies keep_child(
                m,
                i,
                #[trigger] m[i].children[k],
            ) by {
                match m[i].children[k] {
                    ChildM::N(j) => {
                        assert(keep_child(nodes, i, m[i].children[k]));
                        assert(chosen(nodes, i, j));
                        lemma_chosen_roundtwo(nodes, i, j);
                    },
                    ChildM::T(t) => {},
                }
            }
            lemma_filtered_id(m, i, m[i].children);
            assert(minimized_children(m, i) == m[i].children);
        } else {
            assert(minimized_children(m, i) == m[i].children);
        }
    }
    assert(minimized(m) =~~= m);
}

/// Of homogeneous siblings exactly one remains: where a surviving parent's
/// children are three nodes of one shape, none with node children of their
/// own, minimization keeps the first alone, and leaves every other node's
/// name, attributes and parent untouched.
pub proof fn lemma_homogeneous_siblings(nodes: Seq<NodeM>, p: int, a: int, b: int, c: int)
    requires
        wf_nodes(nodes),
        0 <= p < nodes.len(),
        kept(nodes, p),
        nodes[p].children =~= seq![ChildM::N(a), ChildM::N(b), ChildM::N(c)],
        shape_key(nodes[a]) == shape_key(nodes[b]),
        shape_key(nodes[a]) == shape_key(nodes[c]),
        child_count(nodes, a) == 0,
        child_count(nodes, b) == 0,
        child_count(nodes, c) == 0,
    ensures
        minimized(nodes)[p].children =~= seq![ChildM::N(a)],
{
    let ch = nodes[p].children;
    assert(ch[0] == ChildM::N(a) && ch[1] == ChildM::N(b) && ch[2] == ChildM::N(c));
    assert(a != b && a != c && b != c);
    assert(wins(nodes, p, 0));
    assert(chosen(nodes, p, a));
    assert(!wins(nodes, p, 1)) by {
        assert(ch[0] is N && shape_key(nodes[ch[0]->N_0]) == shape_key(nodes[ch[1]->N_0]));
    }
    assert(!wins(nodes, p, 2)) by {
        assert(ch[0] is N && shape_key(nodes[ch[0]->N_0]) == shape_key(nodes[ch[2]->N_0]));
    }
    assert(!chosen(nodes, p, b)) by {
        assert forall|pi: int|
            0 <= pi < ch.len() && (#[trigger] ch[pi]) == ChildM::N(b) implies !wins(
            nodes,
            p,
            pi,
        ) by {
            assert(pi == 1);
        }
    }
    assert(!chosen(nodes, p, c)) by {
        assert forall|pi: int|
            0 <= pi < ch.len() && (#[trigger] ch[pi]) == ChildM::N(c) implies !wins(
            nodes,
            p,
            pi,
        ) by {
            assert(pi == 2);
        }
    }
    assert(ch.drop_last() =~= seq![ChildM::N(a), ChildM::N(b)]);
    assert(seq![ChildM::N(a), ChildM::N(b)].drop_last() =~= seq![ChildM::N(a)]);
    assert(seq![ChildM::N(a)].drop_last() =~= Seq::<ChildM>::empty());
    assert(filtered_children(nodes, p, Seq::<ChildM>::empty()) =~= Seq::<ChildM>::empty());
    assert(filtered_children(nodes, p, seq![ChildM::N(a)]) =~= seq![ChildM::N(a)]);
    assert(filtered_children(nodes, p, seq![ChildM::N(a), ChildM::N(b)]) =~= seq![ChildM::N(a)]);
    assert(filtered_children(nodes, p, ch) =~= seq![ChildM::N(a)]);
}

/// Minimization picks the richer shape: of two same-shaped siblings it
/// keeps the one with more node children, wherever it stands.
pub proof fn lemma_minimize_picks_richer(nodes: Seq<NodeM>, p: int, a: int, b: int)
    requires
        wf_nodes(nodes),
        0 <= p < nodes.len(),
        kept(nodes, p),
        nodes[p].children =~= seq![ChildM::N(a), ChildM::N(b)],
        shape_key(nodes[a]) == shape_key(nodes[b]),
        child_count(nodes, a) < child_count(nodes, b),
    ensures
        minimized(nodes)[p].children =~= seq![ChildM::N(b)],
{
    let ch = nodes[p].children;
    assert(ch[0] == ChildM::N(a) && ch[1] == ChildM::N(b));
    assert(a != b);
    assert(wins(nodes, p, 1)) by {
        assert forall|k: int|
            0 <= k < ch.len() && (#[trigger] ch[k]) is N && shape_key(nodes[ch[k]->N_0])
                == shape_key(nodes[b]) implies child_count(nodes, ch[k]->N_0) < child_count(
            nodes,
            b,
        ) || (child_count(nodes, ch[k]->N_0) == child_count(nodes, b) && 1 <= k) by {
            if k == 0 {
                assert(child_count(nodes, a) < child_count(nodes, b));
            }
        }
    }
    assert(chosen(nodes, p, b));
    assert(!wins(nodes, p, 0)) by {
        assert(ch[1] is N && shape_key(nodes[ch[1]->N_0]) == shape_key(nodes[ch[0]->N_0]));
    }
    assert(!chosen(nodes, p, a)) by {
        assert forall|pi: int|
            0 <= pi < ch.len() && (#[trigger] ch[pi]) == ChildM::N(a) implies !wins(
            nodes,
            p,
            pi,
        ) by {
            assert(pi == 0);
        }
    }
    assert(ch.drop_last() =~= seq![ChildM::N(a)]);
    assert(seq![ChildM::N(a)].drop_last() =~= Seq::<ChildM>::empty());
    assert(filtered_children(nodes, p, Seq::<ChildM>::empty()) =~= Seq::<ChildM>::empty());
    assert(filtered_children(nodes, p, seq![ChildM::N(a)]) =~= Seq::<ChildM>::empty());
    assert(filtered_children(nodes, p, ch) =~= seq![ChildM::N(b)]);
}

// ---------------------------------------------------------------------------
// Comments never reach the rendered output
// ---------------------------------------------------------------------------

/// Two child-list entries that agree except perhaps in the contents of a
/// comment leaf.
pub open spec fn child_blind_eq(x: ChildM, y: ChildM) -> bool {
    match (x, y) {
        (ChildM::T(Tok::Comment(c1)), ChildM::T(Tok::Comment(c2))) => true,
        _ => x == y,
    }
}

/// Two arenas that agree except perhaps in the contents of comment leaves.
pub open spec fn comment_blind_eq(a: Seq<NodeM>, b: Seq<NodeM>) -> bool {
    &&& a.len() == b.len()
    &&& forall|i: int|
        0 <= i < a.len() ==> {
            &&& (#[trigger] b[i]).id == a[i].id
            &&& b[i].name == a[i].name
            &&& b[i].keys == a[i].keys
            &&& b[i].parent == a[i].parent
            &&& b[i].children.len() == a[i].children.len()
        }
    &&& forall|i: int, k: int|
        0 <= i < a.len() && 0 <= k < a[i].children.len() ==> child_blind_eq(
            #[trigger] a[i].children[k],
            #[trigger] b[i].children[k],
        )
}

/// The rendered output never depends on the contents of any comment leaf:
/// comments are dropped entirely.
pub proof fn lemma_render_comment_blind(a: Seq<NodeM>, b: Seq<NodeM>, i: int)
    requires
        comment_blind_eq(a, b),
    ensures
        render_node(a, i) == render_node(b, i),
    decreases a.len() - i, a[i].children.len() + 1,
{
    if 0 <= i < a.len() {
        assert(a[i].name == b[i].name && a[i].keys == b[i].keys);
        if a[i].children.len() == 0 {
        } else {
            lemma_render_children_comment_blind(
                a,
                b,
                i,
                0,
                crate::render::open_render(a[i]) + seq!['>'],
            );
        }
    }
}

proof fn lemma_render_children_comment_blind(a: Seq<NodeM>, b: Seq<NodeM>, i: int, k: int, acc: Seq<
    char,
>)
    requires
        comment_blind_eq(a, b),
    ensures
        render_children(a, i, k, acc) == render_children(b, i, k, acc),
    decreases a.len() - i, a[i].children.len() - k,
{
    if 0 <= i < a.len() && 0 <= k < a[i].children.len() {
        assert(child_blind_eq(a[i].children[k], b[i].children[k]));
        let next = match a[i].children[k] {
            ChildM::N(c) => if i < c < a.len() {
                acc + render_node(a, c)
            } else {
                acc
            },
            ChildM::T(t) => match t {
                Tok::Whitespace => acc + seq![' '],
                Tok::Newline => if acc.len() > 0 && acc.last() == '\n' {
                    acc
                } else {
                    acc + seq!['\n']
                },
                Tok::Text(txt) => acc + txt,
                _ => acc,
            },
        };
        match a[i].children[k] {
            ChildM::N(c) => {
                if i < c < a.len() {
                    lemma_render_comment_blind(a, b, c);
                }
            },
            ChildM::T(t) => {},
        }
        lemma_render_children_comment_blind(a, b, i, k + 1, next);
    }
}

// ---------------------------------------------------------------------------
// A single self-closing element
// ---------------------------------------------------------------------------

/// A character that can stand anywhere in a tag name of a plain element:
/// none of the markup characters, none of the name-ending ones.
pub open spec fn plain_name_char(c: char) -> bool {
    c != '<' && c != '>' && c != '/' && c != ' ' && c != '\t' && c != '\n' && c != '!'
}

proof fn lemma_name_end_runs(s: Seq<char>, lo: int, hi: int)
    requires
        0 <= lo <= hi <= s.len(),
        forall|j: int| lo <= j < hi ==> !name_boundary(s, j),
        hi == s.len() || name_boundary(s, hi),
    ensures
        name_end(s, lo) == hi,
    decreases hi - lo,
{
    if lo == hi {
    } else {
        assert(!name_boundary(s, lo));
        lemma_name_end_runs(s, lo + 1, hi);
    }
}

/// A well-formed input holding one self-closing element alone scans to
/// exactly the opening-tag token and the self-closing token, and builds a
/// tree of one child of the root bearing the element's name, with no
/// attributes and no children.
pub proof fn lemma_single_selfclosing(name: Seq<char>)
    requires
        name.len() >= 1,
        forall|k: int| 0 <= k < name.len() ==> plain_name_char(#[trigger] name[k]),
    ensures
        spec_tokens(seq!['<'] + name + seq!['/', '>'], 0) == Some(
            seq![Tok::TagOpenStart(name), Tok::TagSelfClosing],
        ),
        spec_build(seq![Tok::TagOpenStart(name), Tok::TagSelfClosing]) matches Ok(g) && {
            &&& g.nodes.len() == 2
            &&& g.nodes[0].children =~= seq![ChildM::N(1)]
            &&& g.nodes[1].name == name
            &&& g.nodes[1].keys.len() == 0
            &&& g.nodes[1].children.len() == 0
            &&& g.current == 0
        },
{
    let s = seq!['<'] + name + seq!['/', '>'];
    let n = name.len() as int;
    assert(s.len() == n + 3);
    assert(s[0] == '<');
    assert forall|j: int| 1 <= j <= n implies s[j] == name[j - 1] by {}
    assert(s[n + 1] == '/');
    assert(s[n + 2] == '>');
    // no recognizer ends the name early
    assert forall|j: int| 1 <= j < n + 1 implies !name_boundary(s, j) by {
        assert(s[j] == name[j - 1]);
        assert(plain_name_char(s[j]));
        assert(!self_closing_matches(s, j));
        assert(!cmt_open_at(s, j));
    }
    assert(self_closing_matches(s, n + 1));
    lemma_name_end_runs(s, 1, n + 1);
    // the first token: the opening-tag recognizer wins
    assert(s[1] == name[0]);
    assert(!cmt_open_at(s, 0));
    assert(!close_start_matches(s, 0));
    assert(open_start_matches(s, 0));
    assert(s.subrange(1, n + 1) =~= name);
    assert(spec_token(s, 0) == Some((Tok::TagOpenStart(name), n + 1)));
    // the second token: the self-closing marker
    assert(!cmt_open_at(s, n + 1));
    assert(!close_start_matches(s, n + 1));
    assert(!open_start_matches(s, n + 1));
    assert(spec_token(s, n + 1) == Some((Tok::TagSelfClosing, n + 3)));
    // the whole stream
    let toks = seq![Tok::TagOpenStart(name), Tok::TagSelfClosing];
    assert(spec_tokens(s, n + 3) == Some(Seq::<Tok>::empty()));
    assert(seq![Tok::TagSelfClosing] + Seq::<Tok>::empty() =~= seq![Tok::TagSelfClosing]);
    assert(spec_tokens(s, n + 1) == Some(seq![Tok::TagSelfClosing]));
    assert(seq![Tok::TagOpenStart(name)] + seq![Tok::TagSelfClosing] =~= toks);
    assert(spec_tokens(s, 0) == Some(toks));
    // the build
    assert(toks[0] == Tok::TagOpenStart(name));
    assert(toks[1] == Tok::TagSelfClosing);
    assert(find_tag_end(toks, 1) == Some(1int));
    assert(keys_between(toks, 1, 1) =~= Seq::<Seq<char>>::empty());
    let g0 = spec_init();
    let g1 = spec_add_node(g0, name, keys_between(toks, 1, 1));
    let g2 = spec_close(g1);
    assert(g1.nodes[1].parent == Some(0int));
    assert(g2.current == 0);
    assert(spec_build_from(g0, toks, 0) == spec_build_from(g1, toks, 1));
    assert(spec_build_from(g1, toks, 1) == spec_build_from(g2, toks, 2));
    assert(spec_build_from(g2, toks, 2) == Ok::<_, crate::token::BuildError>(g2));
    assert(spec_build(toks) == Ok::<_, crate::token::BuildError>(g2));
    assert(g2.nodes.len() == 2);
    assert(g2.nodes[0].children =~= seq![ChildM::N(1)]);
    assert(g2.nodes[1].name == name);
    assert(g2.nodes[1].keys.len() == 0);
    assert(g2.nodes[1].children.len() == 0);
}

/// The same element written with a space before the self-closing marker
/// scans to the same two tokens with one whitespace token in between, and
/// builds the same tree.
pub proof fn lemma_single_selfclosing_spaced(name: Seq<char>)
    requires
        name.len() >= 1,
        forall|k: int| 0 <= k < name.len() ==> plain_name_char(#[trigger] name[k]),
    ensures
        spec_tokens(seq!['<'] + name + seq![' ', '/', '>'], 0) == Some(
            seq![Tok::TagOpenStart(name), Tok::Whitespace, Tok::TagSelfClosing],
        ),
        spec_build(seq![Tok::TagOpenStart(name), Tok::Whitespace, Tok::TagSelfClosing]) matches Ok(
            g,
        ) && {
            &&& g.nodes.len() == 2
            &&& g.nodes[0].children =~= seq![ChildM::N(1)]
            &&& g.nodes[1].name == name
            &&& g.nodes[1].keys.len() == 0
            &&& g.nodes[1].children.len() == 0
            &&& g.current == 0
        },
{
    let s = seq!['<'] + name + seq![' ', '/', '>'];
    let n = name.len() as int;
    assert(s.len() == n + 4);
    assert(s[0] == '<');
    assert forall|j: int| 1 <= j <= n implies s[j] == name[j - 1] by {}
    assert(s[n + 1] == ' ');
    assert(s[n + 2] == '/');
    assert(s[n + 3] == '>');
    assert forall|j: int| 1 <= j < n + 1 implies !name_boundary(s, j) by {
        assert(s[j] == name[j - 1]);
        assert(plain_name_char(s[j]));
        assert(!self_closing_matches(s, j));
        assert(!cmt_open_at(s, j));
    }
    assert(whitespace_matches(s, n + 1));
    lemma_name_end_runs(s, 1, n + 1);
    assert(s[1] == name[0]);
    assert(!cmt_open_at(s, 0));
    assert(!close_start_matches(s, 0));
    assert(open_start_matches(s, 0));
    assert(s.subrange(1, n + 1) =~= name);
    assert(spec_token(s, 0) == Some((Tok::TagOpenStart(name), n + 1)));
    // the whitespace token
    assert(!cmt_open_at(s, n + 1));
    assert(!close_start_matches(s, n + 1));
    assert(!open_start_matches(s, n + 1));
    assert(!self_closing_matches(s, n + 1));
    assert(!closing_matches(s, n + 1));
    assert(spec_token(s, n + 1) == Some((Tok::Whitespace, n + 2)));
    // the self-closing marker
    assert(!cmt_open_at(s, n + 2));
    assert(!close_start_matches(s, n + 2));
    assert(!open_start_matches(s, n + 2));
    assert(spec_token(s, n + 2) == Some((Tok::TagSelfClosing, n + 4)));
    let toks = seq![Tok::TagOpenStart(name), Tok::Whitespace, Tok::TagSelfClosing];
    assert(spec_tokens(s, n + 4) == Some(Seq::<Tok>::empty()));
    assert(seq![Tok::TagSelfClosing] + Seq::<Tok>::empty() =~= seq![Tok::TagSelfClosing]);
    assert(spec_tokens(s, n + 2) == Some(seq![Tok::TagSelfClosing]));
    assert(seq![Tok::Whitespace] + seq![Tok::TagSelfClosing] =~= seq![
        Tok::Whitespace,
        Tok::TagSelfClosing,
    ]);
    assert(spec_tokens(s, n + 1) == Some(seq![Tok::Whitespace, Tok::TagSelfClosing]));
    assert(seq![Tok::TagOpenStart(name)] + seq![Tok::Whitespace, Tok::TagSelfClosing] =~= toks);
    assert(spec_tokens(s, 0) == Some(toks));
    // the build skips the whitespace between the name and the marker
    assert(toks[0] == Tok::TagOpenStart(name));
    assert(toks[1] == Tok::Whitespace);
    assert(toks[2] == Tok::TagSelfClosing);
    assert(find_tag_end(toks, 2) == Some(2int));
    assert(find_tag_end(toks, 1) == Some(2int));
    assert(keys_between(toks, 1, 1) =~= Seq::<Seq<char>>::empty());
    assert(keys_between(toks, 1, 2) =~= Seq::<Seq<char>>::empty());
    let g0 = spec_init();
    let g1 = spec_add_node(g0, name, keys_between(toks, 1, 2));
    let g2 = spec_close(g1);
    assert(g1.nodes[1].parent == Some(0int));
    assert(g2.current == 0);
    assert(spec_build_from(g0, toks, 0) == spec_build_from(g1, toks, 2));
    assert(spec_build_from(g1, toks, 2) == spec_build_from(g2, toks, 3));
    assert(spec_build_from(g2, toks, 3) == Ok::<_, crate::token::BuildError>(g2));
    assert(spec_build(toks) == Ok::<_, crate::token::BuildError>(g2));
    assert(g2.nodes.len() == 2);
    assert(g2.nodes[0].children =~= seq![ChildM::N(1)]);
    assert(g2.nodes[1].name == name);
    assert(g2.nodes[1].keys.len() == 0);
    assert(g2.nodes[1].children.len() == 0);
}

} // verus!
