//! The tree arena: nodes addressed by integer identity, with a synthetic
//! root at identity 0 and a single "current node" cursor.
//!
//! The model of a graph is a sequence of node models plus the cursor; the
//! well-formedness predicate [`wf_graph`] states the tree invariant: parent
//! links point strictly downward in identity, every child reference points
//! past its parent and back to it, and no identity appears twice in one
//! child list.

use vstd::prelude::*;

use crate::token::Tok;
use crate::token::Token;

verus! {

// ---------------------------------------------------------------------------
// The mathematical model
// ---------------------------------------------------------------------------

/// Model of one entry of a child list: a node identity or an embedded leaf
/// token.
#[verifier::ext_equal]
pub enum ChildM {
    N(int),
    T(Tok),
}

/// Model of one element node.
#[verifier::ext_equal]
pub struct NodeM {
    pub id: int,
    pub name: Seq<char>,
    pub keys: Seq<Seq<char>>,
    pub parent: Option<int>,
    pub children: Seq<ChildM>,
}

/// Model of the whole arena.
#[verifier::ext_equal]
pub struct GraphM {
    pub nodes: Seq<NodeM>,
    pub current: int,
}

/// The tree invariant of an arena.
pub open spec fn wf_nodes(nodes: Seq<NodeM>) -> bool {
    &&& nodes.len() >= 1
    &&& forall|i: int| 0 <= i < nodes.len() ==> (#[trigger] nodes[i].id) == i
    &&& nodes[0].parent is None
    &&& forall|i: int|
        1 <= i < nodes.len() ==> ((#[trigger] nodes[i].parent) matches Some(p) && 0 <= p < i)
    &&& forall|i: int, k: int|
        0 <= i < nodes.len() && 0 <= k < nodes[i].children.len() ==> match #[trigger] nodes[i].children[k] {
            ChildM::N(c) => i < c < nodes.len() && nodes[c].parent == Some(i),
            ChildM::T(t) => true,
        }
    &&& forall|i: int, k1: int, k2: int|
        #![trigger nodes[i].children[k1], nodes[i].children[k2]]
        0 <= i < nodes.len() && 0 <= k1 < nodes[i].children.len() && 0 <= k2
            < nodes[i].children.len() && nodes[i].children[k1] is N && nodes[i].children[k1]
            == nodes[i].children[k2] ==> k1 == k2
}

pub open spec fn wf_graph(g: GraphM) -> bool {
    &&& wf_nodes(g.nodes)
    &&& 0 <= g.current < g.nodes.len()
}

/// The synthetic root: identity 0, empty name, no attributes.
pub open spec fn root_node() -> NodeM {
    NodeM { id: 0, name: Seq::empty(), keys: Seq::empty(), parent: None, children: Seq::empty() }
}

/// A fresh arena holds the synthetic root alone and points at it.
pub open spec fn spec_init() -> GraphM {
    GraphM { nodes: seq![root_node()], current: 0 }
}

/// Create a node under the current node and descend into it.
pub open spec fn spec_add_node(g: GraphM, name: Seq<char>, keys: Seq<Seq<char>>) -> GraphM {
    let id = g.nodes.len() as int;
    let parent = g.nodes[g.current];
    let with_child = g.nodes.update(
        g.current,
        NodeM { children: parent.children.push(ChildM::N(id)), ..parent },
    );
    GraphM {
        nodes: with_child.push(
            NodeM { id, name, keys, parent: Some(g.current), children: Seq::empty() },
        ),
        current: id,
    }
}

/// Append a leaf token to the current node's child list.
pub open spec fn spec_add_token(g: GraphM, t: Tok) -> GraphM {
    let cur = g.nodes[g.current];
    GraphM {
        nodes: g.nodes.update(g.current, NodeM { children: cur.children.push(ChildM::T(t)), ..cur }),
        ..g
    }
}

/// Ascend to the current node's parent (the root stays put).
pub open spec fn spec_close(g: GraphM) -> GraphM {
    match g.nodes[g.current].parent {
        Some(p) => GraphM { current: p, ..g },
        None => g,
    }
}

pub proof fn lemma_add_node_wf(g: GraphM, name: Seq<char>, keys: Seq<Seq<char>>)
    requires
        wf_graph(g),
    ensures
        wf_graph(spec_add_node(g, name, keys)),
        spec_add_node(g, name, keys).nodes.len() == g.nodes.len() + 1,
{
    let r = spec_add_node(g, name, keys);
    let id = g.nodes.len() as int;
    assert forall|i: int, k: int|
        #![trigger r.nodes[i].children[k]]
        0 <= i < r.nodes.len() && 0 <= k < r.nodes[i].children.len() implies match r.nodes[i].children[k] {
        ChildM::N(c) => i < c < r.nodes.len() && r.nodes[c].parent == Some(i),
        ChildM::T(t) => true,
    } by {
        if i == g.current && k == r.nodes[i].children.len() - 1 {
        } else {
            assert(r.nodes[i].children[k] == g.nodes[i].children[k]);
            match g.nodes[i].children[k] {
                ChildM::N(c) => {
                    assert(c < g.nodes.len());
                },
                ChildM::T(t) => {},
            }
        }
    }
    assert forall|i: int, k1: int, k2: int|
        #![trigger r.nodes[i].children[k1], r.nodes[i].children[k2]]
        0 <= i < r.nodes.len() && 0 <= k1 < r.nodes[i].children.len() && 0 <= k2
            < r.nodes[i].children.len() && r.nodes[i].children[k1] is N && r.nodes[i].children[k1]
            == r.nodes[i].children[k2] implies k1 == k2 by {
        if i == g.current {
            let ch = g.nodes[i].children;
            if k1 < ch.len() && k2 < ch.len() {
            } else if k1 < ch.len() && k2 == ch.len() {
                assert(g.nodes[i].children[k1] is N ==> g.nodes[i].children[k1]->N_0 < id);
            } else if k1 == ch.len() && k2 < ch.len() {
                assert(g.nodes[i].children[k2] is N ==> g.nodes[i].children[k2]->N_0 < id);
            }
        }
    }
}

pub proof fn lemma_add_token_wf(g: GraphM, t: Tok)
    requires
        wf_graph(g),
    ensures
        wf_graph(spec_add_token(g, t)),
        spec_add_token(g, t).nodes.len() == g.nodes.len(),
{
    let r = spec_add_token(g, t);
    assert forall|i: int, k: int|
        #![trigger r.nodes[i].children[k]]
        0 <= i < r.nodes.len() && 0 <= k < r.nodes[i].children.len() implies match r.nodes[i].children[k] {
        ChildM::N(c) => i < c < r.nodes.len() && r.nodes[c].parent == Some(i),
        ChildM::T(tt) => true,
    } by {
        if i == g.current && k == r.nodes[i].children.len() - 1 {
        } else {
            assert(r.nodes[i].children[k] == g.nodes[i].children[k]);
        }
    }
    assert forall|i: int, k1: int, k2: int|
        #![trigger r.nodes[i].children[k1], r.nodes[i].children[k2]]
        0 <= i < r.nodes.len() && 0 <= k1 < r.nodes[i].children.len() && 0 <= k2
            < r.nodes[i].children.len() && r.nodes[i].children[k1] is N && r.nodes[i].children[k1]
            == r.nodes[i].children[k2] implies k1 == k2 by {
        if i == g.current {
            let ch = g.nodes[i].children;
            if k1 < ch.len() && k2 < ch.len() {
            }
        }
    }
}

pub proof fn lemma_close_wf(g: GraphM)
    requires
        wf_graph(g),
    ensures
        wf_graph(spec_close(g)),
        spec_close(g).nodes == g.nodes,
{
}

// ---------------------------------------------------------------------------
// The executable arena
// ---------------------------------------------------------------------------

/// One entry of a child list: a reference to a child node's identity, or an
/// embedded leaf token.
#[derive(Debug, Clone)]
pub enum NodeOrToken {
    T(Token),
    N(usize),
}

/// One element node: a stable identity, a name, the attribute names in
/// order, a parent back-link (absent only for the root), and the ordered
/// child list.
#[derive(Debug, Clone)]
pub struct Node {
    pub id: usize,
    pub name: String,
    pub keys: Vec<String>,
    pub parent: Option<usize>,
    pub children: Vec<NodeOrToken>,
}

/// The arena of all nodes plus the "current node" cursor.
#[derive(Debug)]
pub struct Graph {
    pub nodes: Vec<Node>,
    pub size: usize,
    pub current: usize,
}

impl View for NodeOrToken {
    type V = ChildM;

    open spec fn view(&self) -> ChildM {
        match self {
            NodeOrToken::T(t) => ChildM::T(t@),
            NodeOrToken::N(i) => ChildM::N(*i as int),
        }
    }
}

impl DeepView for NodeOrToken {
    type V = ChildM;

    open spec fn deep_view(&self) -> ChildM {
        self.view()
    }
}

impl View for Node {
    type V = NodeM;

    open spec fn view(&self) -> NodeM {
        NodeM {
            id: self.id as int,
            name: self.name@,
            keys: self.keys.deep_view(),
            parent: match self.parent {
                Some(p) => Some(p as int),
                None => None,
            },
            children: self.children.deep_view(),
        }
    }
}

impl DeepView for Node {
    type V = NodeM;

    open spec fn deep_view(&self) -> NodeM {
        self.view()
    }
}

impl View for Graph {
    type V = GraphM;

    open spec fn view(&self) -> GraphM {
        GraphM { nodes: self.nodes.deep_view(), current: self.current as int }
    }
}

/// Clone a list of attribute names.
fn clone_strings(keys: &Vec<String>) -> (r: Vec<String>)
    ensures
        r.deep_view() == keys.deep_view(),
{
    let mut r: Vec<String> = Vec::new();
    let mut i: usize = 0;
    while i < keys.len()
        invariant
            0 <= i <= keys@.len(),
            r.deep_view() =~= keys.deep_view().subrange(0, i as int),
        decreases keys@.len() - i,
    {
        let ghost prev = r.deep_view();
        r.push(keys[i].clone());
        proof {
            assert(r.deep_view() =~= prev.push(keys@[i as int]@));
            assert(keys.deep_view().subrange(0, i + 1 as int) =~= keys.deep_view().subrange(
                0,
                i as int,
            ).push(keys.deep_view()[i as int]));
        }
        i = i + 1;
    }
    proof {
        assert(r.deep_view() =~= keys.deep_view());
    }
    r
}

impl Graph {
    /// The arena invariant: the model is a well-formed tree and the size
    /// field tracks the node count.
    pub open spec fn wf(&self) -> bool {
        &&& wf_graph(self@)
        &&& self.size == self.nodes@.len()
    }

    /// A fresh arena: the synthetic root alone, cursor on it.
    pub fn new() -> (g: Graph)
        ensures
            g.wf(),
            g@ == spec_init(),
    {
        let mut nodes: Vec<Node> = Vec::new();
        nodes.push(
            Node {
                id: 0,
                name: String::new(),
                keys: Vec::new(),
                parent: None,
                children: Vec::new(),
            },
        );
        let g = Graph { nodes, size: 1, current: 0 };
        proof {
            assert(g@.nodes[0] =~~= root_node());
            assert(g@.nodes =~~= spec_init().nodes);
            assert(g@ =~~= spec_init());
        }
        g
    }

    /// Create a new node named `name` with attribute names `keys` as a child
    /// of the current node, and make it current.
    pub fn add_node(&mut self, name: &String, keys: &Vec<String>)
        requires
            old(self).wf(),
        ensures
            final(self).wf(),
            final(self)@ == spec_add_node(old(self)@, name@, keys.deep_view()),
    {
        let new_node_id = self.size;
        self.nodes.push(
            Node {
                id: new_node_id,
                name: name.clone(),
                keys: clone_strings(keys),
                parent: Some(self.current),
                children: Vec::new(),
            },
        );
        let parent = &mut self.nodes[self.current];
        parent.children.push(NodeOrToken::N(new_node_id));
        self.size = self.nodes.len();
        self.current = new_node_id;
        proof {
            let m = spec_add_node(old(self)@, name@, keys.deep_view());
            assert forall|i: int| 0 <= i < self@.nodes.len() implies self@.nodes[i] =~~= m.nodes[i] by {
            }
            assert(self@.nodes =~~= m.nodes);
            assert(self@ =~~= m);
            lemma_add_node_wf(old(self)@, name@, keys.deep_view());
        }
    }

    /// Append a leaf token to the current node's child list.
    pub fn add_token(&mut self, token: &Token)
        requires
            old(self).wf(),
        ensures
            final(self).wf(),
            final(self)@ == spec_add_token(old(self)@, token@),
    {
        let current_node = &mut self.nodes[self.current];
        current_node.children.push(NodeOrToken::T(token.clone()));
        proof {
            let m = spec_add_token(old(self)@, token@);
            assert forall|i: int| 0 <= i < self@.nodes.len() implies self@.nodes[i] =~~= m.nodes[i] by {
            }
            assert(self@.nodes =~~= m.nodes);
            assert(self@ =~~= m);
            lemma_add_token_wf(old(self)@, token@);
        }
    }

    /// Look a node up by identity.
    pub fn get_node(&self, idx: usize) -> (r: Option<&Node>)
        ensures
            match r {
                Some(node) => idx < self.nodes@.len() && node@ == self@.nodes[idx as int],
                None => idx >= self.nodes@.len(),
            },
    {
        if idx < self.nodes.len() {
            Some(&self.nodes[idx])
        } else {
            None
        }
    }

    /// Ascend to the current node's parent; the root stays current.
    pub fn close_current(&mut self)
        requires
            old(self).wf(),
        ensures
            final(self).wf(),
            final(self)@ == spec_close(old(self)@),
    {
        let p = self.nodes[self.current].parent;
        if let Some(idx) = p {
            self.current = idx;
        }
        proof {
            assert(self@ =~~= spec_close(old(self)@));
        }
    }
}

} // verus!
