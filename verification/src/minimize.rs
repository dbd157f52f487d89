//! The minimizer: collapses structurally-duplicate sibling subtrees.
//!
//! Node children of one parent are grouped by a composite shape key — the
//! element name joined with the attribute names, in declared order, by
//! commas — and each group keeps exactly one representative: the member with
//! the most immediate node children, the earliest-positioned one on ties.
//! Leaf tokens are untouched.  The decision is applied from the root down
//! into the retained children only; dropped subtrees keep their entries in
//! the arena but become unreferenced.

use vstd::prelude::*;
use vstd::string::StrSliceExecFns;
use vstd::string::StringExecFns;

use crate::block::wf_nodes;
use crate::block::ChildM;
use crate::block::Graph;
use crate::block::Node;
use crate::block::NodeM;
use crate::block::NodeOrToken;

verus! {

// ---------------------------------------------------------------------------
// The shape key and child counts
// ---------------------------------------------------------------------------

/// The contribution of the first `j` attribute names to a shape key: a
/// leading comma before each.
pub open spec fn joined_keys(keys: Seq<Seq<char>>, j: int) -> Seq<char>
    decreases j,
{
    if j <= 0 {
        Seq::empty()
    } else {
        joined_keys(keys, j - 1) + seq![','] + keys[j - 1]
    }
}

/// The composite key that decides whether two siblings have the same shape:
/// the element name joined with the attribute names by commas.
pub open spec fn shape_key(n: NodeM) -> Seq<char> {
    n.name + joined_keys(n.keys, n.keys.len() as int)
}

/// How many entries of a child list are node references.
pub open spec fn num_node_children(ch: Seq<ChildM>) -> int
    decreases ch.len(),
{
    if ch.len() == 0 {
        0
    } else {
        num_node_children(ch.drop_last()) + if ch.last() is N {
            1int
        } else {
            0int
        }
    }
}

/// The node-child count of node `j`, the measure of richness.
pub open spec fn child_count(nodes: Seq<NodeM>, j: int) -> int {
    if 0 <= j < nodes.len() {
        num_node_children(nodes[j].children)
    } else {
        0
    }
}

// ---------------------------------------------------------------------------
// Which siblings survive
// ---------------------------------------------------------------------------

/// The node child at position `pi` of `p`'s child list wins its shape
/// group: every same-shaped sibling has fewer node children, or the same
/// count and a position no earlier.
pub open spec fn wins(nodes: Seq<NodeM>, p: int, pi: int) -> bool {
    &&& nodes[p].children[pi] is N
    &&& {
        let c = nodes[p].children[pi]->N_0;
        forall|k: int|
            0 <= k < nodes[p].children.len() && (#[trigger] nodes[p].children[k]) is N
                && shape_key(nodes[nodes[p].children[k]->N_0]) == shape_key(nodes[c])
                ==> child_count(nodes, nodes[p].children[k]->N_0) < child_count(nodes, c)
                || (child_count(nodes, nodes[p].children[k]->N_0) == child_count(nodes, c) && pi
                <= k)
    }
}

/// Node `c` is the chosen representative of its shape group among the node
/// children of `p`.
pub open spec fn chosen(nodes: Seq<NodeM>, p: int, c: int) -> bool {
    exists|pi: int|
        0 <= pi < nodes[p].children.len() && (#[trigger] nodes[p].children[pi]) == ChildM::N(c)
            && wins(nodes, p, pi)
}

/// Node `i` survives minimization: the root always does; any other node
/// survives exactly when its parent does and it is chosen among its
/// parent's children.
pub open spec fn kept(nodes: Seq<NodeM>, i: int) -> bool
    decreases i,
{
    if i == 0 {
        true
    } else if 0 < i < nodes.len() {
        match nodes[i].parent {
            Some(p) => if 0 <= p < i {
                kept(nodes, p) && chosen(nodes, p, i)
            } else {
                false
            },
            None => false,
        }
    } else {
        false
    }
}

/// An entry of `p`'s child list stays: every leaf token does, a node
/// reference only if it is chosen.
pub open spec fn keep_child(nodes: Seq<NodeM>, p: int, c: ChildM) -> bool {
    match c {
        ChildM::T(t) => true,
        ChildM::N(j) => chosen(nodes, p, j),
    }
}

/// The child list `ch` of node `p` with the dropped node references
/// removed, order preserved.
pub open spec fn filtered_children(nodes: Seq<NodeM>, p: int, ch: Seq<ChildM>) -> Seq<ChildM>
    decreases ch.len(),
{
    if ch.len() == 0 {
        Seq::empty()
    } else {
        filtered_children(nodes, p, ch.drop_last()) + if keep_child(nodes, p, ch.last()) {
            seq![ch.last()]
        } else {
            Seq::empty()
        }
    }
}

/// The child list of node `i` after minimization: rewritten where `i`
/// survives, untouched where it was dropped.
pub open spec fn minimized_children(nodes: Seq<NodeM>, i: int) -> Seq<ChildM> {
    if kept(nodes, i) {
        filtered_children(nodes, i, nodes[i].children)
    } else {
        nodes[i].children
    }
}

/// The whole arena after minimization: every node keeps its identity, name,
/// attribute names and parent; only child lists change.
pub open spec fn minimized(nodes: Seq<NodeM>) -> Seq<NodeM> {
    Seq::new(nodes.len(), |i: int| NodeM { children: minimized_children(nodes, i), ..nodes[i] })
}

// ---------------------------------------------------------------------------
// Minimization preserves the tree invariant
// ---------------------------------------------------------------------------

pub proof fn lemma_filtered_entries(nodes: Seq<NodeM>, p: int, ch: Seq<ChildM>)
    ensures
        forall|k: int|
            0 <= k < filtered_children(nodes, p, ch).len() ==> exists|o: int|
                0 <= o < ch.len() && ch[o] == #[trigger] filtered_children(nodes, p, ch)[k],
    decreases ch.len(),
{
    if ch.len() == 0 {
    } else {
        lemma_filtered_entries(nodes, p, ch.drop_last());
        let f = filtered_children(nodes, p, ch);
        let fd = filtered_children(nodes, p, ch.drop_last());
        assert forall|k: int| 0 <= k < f.len() implies exists|o: int|
            0 <= o < ch.len() && ch[o] == #[trigger] f[k] by {
            if k < fd.len() {
                let o = choose|o: int| 0 <= o < ch.drop_last().len() && ch.drop_last()[o] == fd[k];
                assert(ch[o] == f[k]);
            } else {
                assert(ch[ch.len() - 1] == f[k]);
            }
        }
    }
}

pub proof fn lemma_filtered_unique(nodes: Seq<NodeM>, p: int, ch: Seq<ChildM>)
    requires
        forall|k1: int, k2: int|
            #![trigger ch[k1], ch[k2]]
            0 <= k1 < ch.len() && 0 <= k2 < ch.len() && ch[k1] is N && ch[k1] == ch[k2] ==> k1
                == k2,
    ensures
        forall|k1: int, k2: int|
            #![trigger filtered_children(nodes, p, ch)[k1], filtered_children(nodes, p, ch)[k2]]
            0 <= k1 < filtered_children(nodes, p, ch).len() && 0 <= k2 < filtered_children(
                nodes,
                p,
                ch,
            ).len() && filtered_children(nodes, p, ch)[k1] is N && filtered_children(nodes, p, ch)[k1]
                == filtered_children(nodes, p, ch)[k2] ==> k1 == k2,
    decreases ch.len(),
{
    if ch.len() == 0 {
    } else {
        let d = ch.drop_last();
        assert forall|k1: int, k2: int|
            #![trigger d[k1], d[k2]]
            0 <= k1 < d.len() && 0 <= k2 < d.len() && d[k1] is N && d[k1] == d[k2] implies k1
            == k2 by {
            assert(ch[k1] == d[k1] && ch[k2] == d[k2]);
        }
        lemma_filtered_unique(nodes, p, d);
        lemma_filtered_entries(nodes, p, d);
        let f = filtered_children(nodes, p, ch);
        let fd = filtered_children(nodes, p, d);
        assert forall|k1: int, k2: int|
            #![trigger f[k1], f[k2]]
            0 <= k1 < f.len() && 0 <= k2 < f.len() && f[k1] is N && f[k1] == f[k2] implies k1
            == k2 by {
            if k1 < fd.len() && k2 < fd.len() {
                assert(f[k1] == fd[k1] && f[k2] == fd[k2]);
            } else if k1 < fd.len() && k2 >= fd.len() {
                // the new last entry equals an earlier one: impossible
                let o = choose|o: int| 0 <= o < d.len() && d[o] == fd[k1];
                assert(ch[o] == ch[ch.len() - 1]);
            } else if k1 >= fd.len() && k2 < fd.len() {
                let o = choose|o: int| 0 <= o < d.len() && d[o] == fd[k2];
                assert(ch[o] == ch[ch.len() - 1]);
            }
        }
    }
}

/// Every entry of a filtered child list passes the filter.
pub proof fn lemma_filtered_keeps(nodes: Seq<NodeM>, p: int, ch: Seq<ChildM>)
    ensures
        forall|k: int|
            0 <= k < filtered_children(nodes, p, ch).len() ==> keep_child(
                nodes,
                p,
                #[trigger] filtered_children(nodes, p, ch)[k],
            ),
    decreases ch.len(),
{
    if ch.len() == 0 {
    } else {
        lemma_filtered_keeps(nodes, p, ch.drop_last());
        let f = filtered_children(nodes, p, ch);
        let fd = filtered_children(nodes, p, ch.drop_last());
        assert forall|k: int| 0 <= k < f.len() implies keep_child(nodes, p, #[trigger] f[k]) by {
            if k < fd.len() {
                assert(f[k] == fd[k]);
            } else {
                assert(f[k] == ch.last());
            }
        }
    }
}

/// A child list whose entries all pass the filter is left unchanged.
pub proof fn lemma_filtered_id(nodes: Seq<NodeM>, p: int, ch: Seq<ChildM>)
    requires
        forall|k: int| 0 <= k < ch.len() ==> keep_child(nodes, p, #[trigger] ch[k]),
    ensures
        filtered_children(nodes, p, ch) =~= ch,
    decreases ch.len(),
{
    if ch.len() == 0 {
    } else {
        let d = ch.drop_last();
        assert forall|k: int| 0 <= k < d.len() implies keep_child(nodes, p, #[trigger] d[k]) by {
            assert(d[k] == ch[k]);
        }
        lemma_filtered_id(nodes, p, d);
        assert(keep_child(nodes, p, ch.last()));
    }
}

/// An entry that passes the filter survives into the filtered list.
pub proof fn lemma_filtered_member(nodes: Seq<NodeM>, p: int, ch: Seq<ChildM>, k: int)
    requires
        0 <= k < ch.len(),
        keep_child(nodes, p, ch[k]),
    ensures
        exists|k2: int|
            0 <= k2 < filtered_children(nodes, p, ch).len() && #[trigger] filtered_children(
                nodes,
                p,
                ch,
            )[k2] == ch[k],
    decreases ch.len(),
{
    let f = filtered_children(nodes, p, ch);
    let fd = filtered_children(nodes, p, ch.drop_last());
    if k == ch.len() - 1 {
        assert(f[fd.len() as int] == ch[k]);
    } else {
        lemma_filtered_member(nodes, p, ch.drop_last(), k);
        let k2 = choose|k2: int| 0 <= k2 < fd.len() && fd[k2] == ch.drop_last()[k];
        assert(f[k2] == ch[k]);
    }
}

pub proof fn lemma_minimized_wf(nodes: Seq<NodeM>)
    requires
        wf_nodes(nodes),
    ensures
        wf_nodes(minimized(nodes)),
    decreases 0int,
{
    let m = minimized(nodes);
    assert forall|i: int, k: int|
        #![trigger m[i].children[k]]
        0 <= i < m.len() && 0 <= k < m[i].children.len() implies match m[i].children[k] {
        ChildM::N(c) => i < c < m.len() && m[c].parent == Some(i),
        ChildM::T(t) => true,
    } by {
        lemma_filtered_entries(nodes, i, nodes[i].children);
        if kept(nodes, i) {
            let o = choose|o: int|
                0 <= o < nodes[i].children.len() && nodes[i].children[o] == m[i].children[k];
            match nodes[i].children[o] {
                ChildM::N(c) => {
                    assert(nodes[c].parent == Some(i));
                },
                ChildM::T(t) => {},
            }
        } else {
            match nodes[i].children[k] {
                ChildM::N(c) => {
                    assert(nodes[c].parent == Some(i));
                },
                ChildM::T(t) => {},
            }
        }
    }
    assert forall|i: int, k1: int, k2: int|
        #![trigger m[i].children[k1], m[i].children[k2]]
        0 <= i < m.len() && 0 <= k1 < m[i].children.len() && 0 <= k2 < m[i].children.len()
            && m[i].children[k1] is N && m[i].children[k1] == m[i].children[k2] implies k1 == k2 by {
        if kept(nodes, i) {
            lemma_filtered_unique(nodes, i, nodes[i].children);
        }
    }
}

// ---------------------------------------------------------------------------
// Executable helpers
// ---------------------------------------------------------------------------

impl Node {
    /// How many of this node's children are themselves nodes.
    pub fn count_child_nodes(&self) -> (r: usize)
        ensures
            r as int == num_node_children(self@.children),
    {
        let mut count: usize = 0;
        let mut k: usize = 0;
        while k < self.children.len()
            invariant
                0 <= k <= self.children@.len(),
                count as int == num_node_children(self@.children.subrange(0, k as int)),
                count <= k,
            decreases self.children@.len() - k,
        {
            let ghost pre = self@.children.subrange(0, k as int);
            match &self.children[k] {
                NodeOrToken::N(j) => {
                    count = count + 1;
                },
                NodeOrToken::T(t) => {},
            }
            proof {
                assert(self@.children.subrange(0, k + 1 as int).drop_last() =~= pre);
            }
            k = k + 1;
        }
        proof {
            assert(self@.children.subrange(0, self.children@.len() as int) =~= self@.children);
        }
        count
    }
}

/// The composite shape key of a node, as a string.
fn shape_key_of(node: &Node) -> (r: String)
    ensures
        r@ == shape_key(node@),
{
    let mut r: String = node.name.clone();
    let mut k: usize = 0;
    while k < node.keys.len()
        invariant
            0 <= k <= node.keys@.len(),
            r@ == node.name@ + joined_keys(node@.keys, k as int),
        decreases node.keys@.len() - k,
    {
        proof {
            reveal_strlit(",");
            assert(","@ =~= seq![',']);
        }
        r.append(",");
        r.append(node.keys[k].as_str());
        k = k + 1;
    }
    r
}

/// The position of the entry `N(c)` in a node's child list, if any.
fn find_child_pos(parent: &Node, c: usize) -> (r: Option<usize>)
    ensures
        match r {
            Some(pi) => pi < parent@.children.len() && parent@.children[pi as int] == ChildM::N(
                c as int,
            ) && forall|k: int|
                0 <= k < pi ==> #[trigger] parent@.children[k] != ChildM::N(c as int),
            None => forall|k: int|
                0 <= k < parent@.children.len() ==> #[trigger] parent@.children[k] != ChildM::N(
                    c as int,
                ),
        },
{
    let len = parent.children.len();
    let mut pi: usize = 0;
    while pi < len
        invariant
            0 <= pi <= len,
            len == parent@.children.len(),
            forall|k: int| 0 <= k < pi ==> #[trigger] parent@.children[k] != ChildM::N(c as int),
        decreases len - pi,
    {
        match &parent.children[pi] {
            NodeOrToken::N(j) => {
                if *j == c {
                    return Some(pi);
                }
            },
            NodeOrToken::T(t) => {},
        }
        pi = pi + 1;
    }
    None
}

/// Is node `c` the chosen representative of its shape group among the node
/// children of `p`?
fn is_chosen(nodes: &Vec<Node>, p: usize, c: usize) -> (r: bool)
    requires
        wf_nodes(nodes.deep_view()),
        p < nodes@.len(),
    ensures
        r == chosen(nodes.deep_view(), p as int, c as int),
{
    let ghost m = nodes.deep_view();
    let parent = &nodes[p];
    let ghost ch = m[p as int].children;
    let len = parent.children.len();
    let pi = match find_child_pos(parent, c) {
        Some(pi) => pi,
        None => {
            // `c` is not a node child of `p` at all
            return false;
        },
    };
    // `pi` is the unique position holding `c`; test whether it wins
    proof {
        assert(parent@ == m[p as int]);
        assert(m[p as int].children[pi as int] == ChildM::N(c as int));
        assert((p as int) < c < m.len());
        assert(m.len() == nodes@.len());
    }
    let c_node = &nodes[c];
    proof {
        assert(c_node@ == m[c as int]);
    }
    let c_key = shape_key_of(c_node);
    let c_count = c_node.count_child_nodes();
    let mut k: usize = 0;
    while k < len
        invariant
            0 <= k <= len,
            pi < len,
            len == ch.len(),
            ch == m[p as int].children,
            m == nodes.deep_view(),
            p < nodes@.len(),
            c < nodes@.len(),
            parent@ == m[p as int],
            wf_nodes(m),
            ch[pi as int] == ChildM::N(c as int),
            c_key@ == shape_key(m[c as int]),
            c_count as int == child_count(m, c as int),
            forall|j: int| 0 <= j < pi ==> #[trigger] ch[j] != ChildM::N(c as int),
            forall|j: int|
                0 <= j < k && (#[trigger] ch[j]) is N && shape_key(m[ch[j]->N_0]) == shape_key(
                    m[c as int],
                ) ==> child_count(m, ch[j]->N_0) < child_count(m, c as int) || (child_count(
                    m,
                    ch[j]->N_0,
                ) == child_count(m, c as int) && pi <= j),
        decreases len - k,
    {
        match &parent.children[k] {
            NodeOrToken::N(j) => {
                let jj: usize = *j;
                proof {
                    assert(parent.children@[k as int] == NodeOrToken::N(jj));
                    assert(m[p as int].children[k as int] == ChildM::N(jj as int));
                    assert((p as int) < jj < m.len());
                }
                let sib = &nodes[jj];
                proof {
                    assert(sib@ == m[jj as int]);
                }
                let sib_key = shape_key_of(sib);
                if sib_key == c_key {
                    let sib_count = sib.count_child_nodes();
                    if sib_count > c_count || (sib_count == c_count && k < pi) {
                        proof {
                            assert(ch[k as int] is N && ch[k as int]->N_0 == jj as int);
                            assert(!wins(m, p as int, pi as int));
                            assert forall|q: int|
                                0 <= q < ch.len() && (#[trigger] ch[q]) == ChildM::N(c as int)
                                    && wins(m, p as int, q) implies false by {
                                assert(m[p as int].children[q] == m[p as int].children[pi as int]);
                                assert(q == pi as int);
                            }
                            assert(!chosen(m, p as int, c as int));
                        }
                        return false;
                    }
                }
            },
            NodeOrToken::T(t) => {},
        }
        k = k + 1;
    }
    proof {
        assert(wins(m, p as int, pi as int));
        assert(chosen(m, p as int, c as int));
    }
    true
}

// ---------------------------------------------------------------------------
// The minimizer itself
// ---------------------------------------------------------------------------

impl Graph {
    /// Collapse duplicate sibling shapes, keeping the representative with
    /// the most immediate node children (first seen wins ties), from the
    /// root down into retained children only.
    pub fn minimize(&mut self)
        requires
            old(self).wf(),
        ensures
            final(self).wf(),
            final(self)@.nodes == minimized(old(self)@.nodes),
            final(self)@.current == old(self)@.current,
            final(self)@.nodes.len() == old(self)@.nodes.len(),
    {
        let ghost orig = self@.nodes;
        let n = self.nodes.len();
        // first pass: decide which nodes survive, in identity order
        let mut keptv: Vec<bool> = Vec::new();
        keptv.push(true);
        let mut i: usize = 1;
        while i < n
            invariant
                1 <= i <= n,
                n == self.nodes@.len(),
                self.wf(),
                orig == self@.nodes,
                keptv@.len() == i,
                forall|j: int| 0 <= j < i ==> keptv@[j] == kept(orig, j),
            decreases n - i,
        {
            let p = match self.nodes[i].parent {
                Some(p) => p,
                None => {
                    proof {
                        assert(orig[i as int].parent is Some);
                        assert(false);
                    }
                    0
                },
            };
            proof {
                assert(orig[i as int].parent == Some(p as int));
                assert(0 <= p < i);
                assert(kept(orig, i as int) == (kept(orig, p as int) && chosen(
                    orig,
                    p as int,
                    i as int,
                )));
            }
            let flag = if keptv[p] {
                is_chosen(&self.nodes, p, i)
            } else {
                false
            };
            keptv.push(flag);
            i = i + 1;
        }
        // second pass: rewrite the child lists of the surviving nodes
        let mut i: usize = 0;
        while i < n
            invariant
                0 <= i <= n,
                n == self.nodes@.len(),
                orig.len() == n,
                self.size == n,
                self.current == old(self).current,
                keptv@.len() == n,
                forall|j: int| 0 <= j < n ==> keptv@[j] == kept(orig, j),
                wf_nodes(orig),
                forall|j: int| i <= j < n ==> self@.nodes[j] == orig[j],
                forall|j: int| 0 <= j < i ==> self@.nodes[j] =~~= minimized(orig)[j],
            decreases n - i,
        {
            proof {
                assert(self@.nodes[i as int] == orig[i as int]);
            }
            if keptv[i] {
                proof {
                    assert(kept(orig, i as int));
                }
                let mut new_children: Vec<NodeOrToken> = Vec::new();
                let node_len = self.nodes[i].children.len();
                let mut k: usize = 0;
                while k < node_len
                    invariant
                        0 <= k <= node_len,
                        i < n,
                        n == self.nodes@.len(),
                        orig.len() == n,
                        node_len == orig[i as int].children.len(),
                        wf_nodes(orig),
                        keptv@.len() == n,
                        kept(orig, i as int),
                        forall|j: int| 0 <= j < n ==> keptv@[j] == kept(orig, j),
                        forall|j: int| i <= j < n ==> self@.nodes[j] == orig[j],
                        new_children.deep_view() == filtered_children(
                            orig,
                            i as int,
                            orig[i as int].children.subrange(0, k as int),
                        ),
                    decreases node_len - k,
                {
                    proof {
                        assert(self@.nodes[i as int] == orig[i as int]);
                    }
                    let ghost pre = orig[i as int].children.subrange(0, k as int);
                    let ghost prev = new_children.deep_view();
                    let ghost ck = orig[i as int].children[k as int];
                    let keep: bool;
                    let entry: NodeOrToken;
                    match &self.nodes[i].children[k] {
                        NodeOrToken::N(j) => {
                            let jj: usize = *j;
                            proof {
                                assert(ck == ChildM::N(jj as int));
                                assert((i as int) < jj < n);
                                assert(orig[jj as int].parent == Some(i as int));
                                assert(kept(orig, jj as int) == (kept(orig, i as int) && chosen(
                                    orig,
                                    i as int,
                                    jj as int,
                                )));
                            }
                            keep = keptv[jj];
                            entry = NodeOrToken::N(jj);
                        },
                        NodeOrToken::T(t) => {
                            keep = true;
                            entry = NodeOrToken::T(t.clone());
                        },
                    }
                    proof {
                        assert(entry@ == ck);
                        assert(keep == keep_child(orig, i as int, ck));
                    }
                    if keep {
                        new_children.push(entry);
                        proof {
                            assert(new_children.deep_view() =~= prev.push(ck));
                        }
                    }
                    proof {
                        assert(orig[i as int].children.subrange(0, k + 1 as int).drop_last()
                            =~= pre);
                        assert(orig[i as int].children.subrange(0, k + 1 as int).last() == ck);
                        assert(new_children.deep_view() =~= filtered_children(
                            orig,
                            i as int,
                            orig[i as int].children.subrange(0, k + 1 as int),
                        ));
                    }
                    k = k + 1;
                }
                proof {
                    assert(orig[i as int].children.subrange(
                        0,
                        orig[i as int].children.len() as int,
                    ) =~= orig[i as int].children);
                }
                let ghost before = self@.nodes;
                let node = &mut self.nodes[i];
                node.children = new_children;
                proof {
                    assert forall|j: int| 0 <= j < n && j != i implies self@.nodes[j]
                        == before[j] by {}
                    assert(self@.nodes[i as int].children == minimized_children(orig, i as int));
                    assert(self@.nodes[i as int] =~~= minimized(orig)[i as int]);
                }
            } else {
                proof {
                    assert(!kept(orig, i as int));
                    assert(minimized_children(orig, i as int) == orig[i as int].children);
                    assert(self@.nodes[i as int] =~~= minimized(orig)[i as int]);
                }
            }
            i = i + 1;
        }
        proof {
            assert(self@.nodes =~~= minimized(orig));
            lemma_minimized_wf(orig);
            assert(wf_nodes(self@.nodes));
        }
    }
}

} // verus!
