//! The renderer: the textual overview of a (minimized) tree, depth-first
//! from a node.
//!
//! Each node renders as its opening tag with empty-valued attribute pairs,
//! then its children — node children recurse, text leaves verbatim, a
//! whitespace leaf as one space, a newline leaf only where the output does
//! not already end in one — and comments are dropped.  A node with no
//! children at all renders self-closed.

use vstd::prelude::*;
use vstd::string::StrSliceExecFns;
use vstd::string::StringExecFns;

use crate::block::ChildM;
use crate::block::Graph;
use crate::block::Node;
use crate::block::NodeM;
use crate::block::NodeOrToken;
use crate::token::Tok;
use crate::token::Token;

verus! {

// ---------------------------------------------------------------------------
// What a node renders to
// ---------------------------------------------------------------------------

/// One attribute name rendered as an empty-valued pair.
pub open spec fn rendered_pair(k: Seq<char>) -> Seq<char> {
    k + seq!['=', '"', '"']
}

/// The first `j` attribute pairs joined by single spaces.
pub open spec fn rendered_keys(keys: Seq<Seq<char>>, j: int) -> Seq<char>
    decreases j,
{
    if j <= 0 {
        Seq::empty()
    } else if j == 1 {
        rendered_pair(keys[0])
    } else {
        rendered_keys(keys, j - 1) + seq![' '] + rendered_pair(keys[j - 1])
    }
}

/// The opening tag of a node, up to but not including `>` or `/>`.
pub open spec fn open_render(n: NodeM) -> Seq<char> {
    seq!['<'] + n.name + if n.keys.len() > 0 {
        seq![' '] + rendered_keys(n.keys, n.keys.len() as int)
    } else {
        Seq::empty()
    }
}

/// The full rendering of node `i`.
pub open spec fn render_node(nodes: Seq<NodeM>, i: int) -> Seq<char>
    decreases nodes.len() - i, nodes[i].children.len() + 1,
{
    if 0 <= i < nodes.len() {
        if nodes[i].children.len() == 0 {
            open_render(nodes[i]) + seq!['/', '>']
        } else {
            render_children(nodes, i, 0, open_render(nodes[i]) + seq!['>']) + seq!['<', '/']
                + nodes[i].name + seq!['>']
        }
    } else {
        Seq::empty()
    }
}

/// The children of node `i` from position `k` on, appended to the output
/// accumulated so far.
pub open spec fn render_children(nodes: Seq<NodeM>, i: int, k: int, acc: Seq<char>) -> Seq<char>
    decreases nodes.len() - i, nodes[i].children.len() - k,
{
    if 0 <= i < nodes.len() && 0 <= k < nodes[i].children.len() {
        let next = match nodes[i].children[k] {
            ChildM::N(c) => if i < c < nodes.len() {
                acc + render_node(nodes, c)
            } else {
                acc
            },
            ChildM::T(t) => match t {
                Tok::Whitespace => acc + seq![' '],
                Tok::Newline => if acc.len() > 0 && acc.last() == '\n' {
                    acc
                } else {
                    acc + seq!['\n']
                },
                Tok::Text(txt) => acc + txt,
                _ => acc,
            },
        };
        render_children(nodes, i, k + 1, next)
    } else {
        acc
    }
}

// ---------------------------------------------------------------------------
// The executable renderer
// ---------------------------------------------------------------------------

/// Does this string end with a newline?
fn ends_with_newline(s: &String) -> (r: bool)
    ensures
        r == (s@.len() > 0 && s@.last() == '\n'),
{
    let n: usize = s.as_str().unicode_len();
    n > 0 && s.as_str().get_char(n - 1) == '\n'
}

/// Render the subtree rooted at node `i`.
fn render_at(graph: &Graph, i: usize) -> (r: String)
    requires
        graph.wf(),
        i < graph.nodes@.len(),
    ensures
        r@ == render_node(graph@.nodes, i as int),
    decreases graph@.nodes.len() - i,
{
    proof {
        reveal_strlit("<");
        reveal_strlit(">");
        reveal_strlit("/>");
        reveal_strlit("</");
        reveal_strlit(" ");
        reveal_strlit("=\"\"");
        reveal_strlit("\n");
    }
    let ghost nodes = graph@.nodes;
    let node = &graph.nodes[i];
    proof {
        assert(node@ == nodes[i as int]);
    }
    let mut res = String::new();
    res.append("<");
    res.append(node.name.as_str());
    proof {
        assert(res@ =~= seq!['<'] + node@.name);
    }
    if node.keys.len() > 0 {
        res.append(" ");
        proof {
            assert(" "@ =~= seq![' ']);
            assert(res@ =~= seq!['<'] + node@.name + seq![' '] + rendered_keys(node@.keys, 0));
        }
        let mut k: usize = 0;
        while k < node.keys.len()
            invariant
                0 < node.keys@.len(),
                0 <= k <= node.keys@.len(),
                node@ == nodes[i as int],
                res@ == seq!['<'] + node@.name + seq![' '] + rendered_keys(node@.keys, k as int),
            decreases node.keys@.len() - k,
        {
            proof {
                reveal_strlit(" ");
                reveal_strlit("=\"\"");
            }
            if k > 0 {
                res.append(" ");
            }
            res.append(node.keys[k].as_str());
            res.append("=\"\"");
            proof {
                assert("=\"\""@ =~= seq!['=', '"', '"']);
                assert(" "@ =~= seq![' ']);
                assert(res@ =~= seq!['<'] + node@.name + seq![' '] + rendered_keys(
                    node@.keys,
                    k + 1 as int,
                ));
            }
            k = k + 1;
        }
    }
    proof {
        assert(res@ =~= open_render(nodes[i as int]));
    }
    if node.children.len() == 0 {
        res.append("/>");
        proof {
            assert(res@ =~= render_node(nodes, i as int));
        }
        return res;
    }
    res.append(">");
    let ghost acc0 = open_render(nodes[i as int]) + seq!['>'];
    proof {
        assert(res@ =~= acc0);
    }
    let mut k: usize = 0;
    while k < node.children.len()
        invariant
            graph.wf(),
            i < graph@.nodes.len(),
            nodes == graph@.nodes,
            node@ == nodes[i as int],
            0 <= k <= node.children@.len(),
            render_children(nodes, i as int, k as int, res@) == render_children(
                nodes,
                i as int,
                0,
                acc0,
            ),
        decreases node.children@.len() - k,
    {
        proof {
            assert(node@.children[k as int] == node.children@[k as int]@);
        }
        match &node.children[k] {
            NodeOrToken::N(c) => {
                proof {
                    assert(nodes[i as int].children[k as int] == ChildM::N(*c as int));
                    assert((i as int) < *c < nodes.len());
                }
                let child = render_at(graph, *c);
                res.append(child.as_str());
            },
            NodeOrToken::T(t) => {
                match t {
                    Token::Whitespace => {
                        proof {
                            reveal_strlit(" ");
                            assert(" "@ =~= seq![' ']);
                        }
                        res.append(" ");
                    },
                    Token::Newline => {
                        if !ends_with_newline(&res) {
                            proof {
                                reveal_strlit("\n");
                                assert("\n"@ =~= seq!['\n']);
                            }
                            res.append("\n");
                        }
                    },
                    Token::Text(txt) => {
                        res.append(txt.as_str());
                    },
                    _ => {},
                }
            },
        }
        k = k + 1;
    }
    let ghost body = res@;
    res.append("</");
    res.append(node.name.as_str());
    res.append(">");
    proof {
        reveal_strlit("</");
        reveal_strlit(">");
        assert(body == render_children(nodes, i as int, 0, acc0));
        assert(res@ =~= body + seq!['<', '/'] + nodes[i as int].name + seq!['>']);
        assert(res@ =~= render_node(nodes, i as int));
    }
    res
}

impl Node {
    /// Render this node's subtree within its graph.
    pub fn print(&self, graph: &Graph) -> (r: String)
        requires
            graph.wf(),
            self.id < graph.nodes@.len(),
            self@ == graph@.nodes[self.id as int],
        ensures
            r@ == render_node(graph@.nodes, self.id as int),
    {
        render_at(graph, self.id)
    }
}

impl Graph {
    /// Render the whole tree from the synthetic root; its wrapper tags are
    /// part of the output and are stripped by the caller.
    pub fn print(&self) -> (r: String)
        requires
            self.wf(),
        ensures
            r@ == render_node(self@.nodes, 0),
    {
        render_at(self, 0)
    }
}

// ---------------------------------------------------------------------------
// The structural listing
// ---------------------------------------------------------------------------

/// The names of the node children among the first `j` entries of a child
/// list, in order.
pub open spec fn node_child_names(nodes: Seq<NodeM>, ch: Seq<ChildM>, j: int) -> Seq<Seq<char>>
    decreases j,
{
    if j <= 0 {
        Seq::empty()
    } else {
        node_child_names(nodes, ch, j - 1) + match ch[j - 1] {
            ChildM::N(c) => seq![
                if 0 <= c < nodes.len() {
                    nodes[c].name
                } else {
                    Seq::empty()
                }
            ],
            ChildM::T(t) => Seq::empty(),
        }
    }
}

/// The first `j` names joined by commas.
pub open spec fn comma_joined(names: Seq<Seq<char>>, j: int) -> Seq<char>
    decreases j,
{
    if j <= 0 {
        Seq::empty()
    } else if j == 1 {
        names[0]
    } else {
        comma_joined(names, j - 1) + seq![','] + names[j - 1]
    }
}

/// One line of the listing: the node's name and the names of its node
/// children.
pub open spec fn tree_line(nodes: Seq<NodeM>, i: int) -> Seq<char> {
    let names = node_child_names(nodes, nodes[i].children, nodes[i].children.len() as int);
    nodes[i].name + ", children: [\""@ + comma_joined(names, names.len() as int) + "\"]\n"@
}

/// The listing of the subtree rooted at node `i`: its own line, then its
/// node children in order, depth-first.
pub open spec fn tree_lines(nodes: Seq<NodeM>, i: int) -> Seq<char>
    decreases nodes.len() - i, nodes[i].children.len() + 1,
{
    if 0 <= i < nodes.len() {
        tree_rest(nodes, i, 0, tree_line(nodes, i))
    } else {
        Seq::empty()
    }
}

/// The listing of the subtrees of node `i`'s children from position `k` on.
pub open spec fn tree_rest(nodes: Seq<NodeM>, i: int, k: int, acc: Seq<char>) -> Seq<char>
    decreases nodes.len() - i, nodes[i].children.len() - k,
{
    if 0 <= i < nodes.len() && 0 <= k < nodes[i].children.len() {
        let next = match nodes[i].children[k] {
            ChildM::N(c) => if i < c < nodes.len() {
                acc + tree_lines(nodes, c)
            } else {
                acc
            },
            ChildM::T(t) => acc,
        };
        tree_rest(nodes, i, k + 1, next)
    } else {
        acc
    }
}

/// The listing of every node's subtree, for the first `j` nodes of the
/// arena.
pub open spec fn all_tree_lines(nodes: Seq<NodeM>, j: int) -> Seq<char>
    decreases j,
{
    if j <= 0 {
        Seq::empty()
    } else {
        all_tree_lines(nodes, j - 1) + tree_lines(nodes, j - 1)
    }
}

/// The listing of the subtree rooted at node `i`.
fn tree_lines_at(graph: &Graph, i: usize) -> (r: String)
    requires
        graph.wf(),
        i < graph.nodes@.len(),
    ensures
        r@ == tree_lines(graph@.nodes, i as int),
    decreases graph@.nodes.len() - i,
{
    let ghost nodes = graph@.nodes;
    let node = &graph.nodes[i];
    proof {
        assert(node@ == nodes[i as int]);
    }
    // collect the names of the node children
    let mut names: Vec<String> = Vec::new();
    let mut k: usize = 0;
    while k < node.children.len()
        invariant
            graph.wf(),
            i < graph@.nodes.len(),
            nodes == graph@.nodes,
            node@ == nodes[i as int],
            0 <= k <= node.children@.len(),
            names.deep_view() == node_child_names(nodes, node@.children, k as int),
        decreases node.children@.len() - k,
    {
        let ghost prev = names.deep_view();
        proof {
            assert(node@.children[k as int] == node.children@[k as int]@);
        }
        match &node.children[k] {
            NodeOrToken::N(c) => {
                proof {
                    assert(nodes[i as int].children[k as int] == ChildM::N(*c as int));
                    assert((i as int) < *c < nodes.len());
                }
                names.push(graph.nodes[*c].name.clone());
                proof {
                    assert(names.deep_view() =~= prev.push(nodes[*c as int].name));
                    assert(names.deep_view() =~= node_child_names(
                        nodes,
                        node@.children,
                        k + 1 as int,
                    ));
                }
            },
            NodeOrToken::T(t) => {
                proof {
                    assert(names.deep_view() =~= node_child_names(
                        nodes,
                        node@.children,
                        k + 1 as int,
                    ));
                }
            },
        }
        k = k + 1;
    }
    // the node's own line
    let mut res = node.name.clone();
    res.append(", children: [\"");
    let ghost named = names.deep_view();
    proof {
        assert(res@ =~= nodes[i as int].name + ", children: [\""@ + comma_joined(named, 0));
    }
    let mut j: usize = 0;
    while j < names.len()
        invariant
            nodes == graph@.nodes,
            i < nodes.len(),
            node@ == nodes[i as int],
            0 <= j <= names@.len(),
            named == names.deep_view(),
            res@ == nodes[i as int].name + ", children: [\""@ + comma_joined(named, j as int),
        decreases names@.len() - j,
    {
        if j > 0 {
            proof {
                reveal_strlit(",");
                assert(","@ =~= seq![',']);
            }
            res.append(",");
        }
        res.append(names[j].as_str());
        proof {
            assert(res@ =~= nodes[i as int].name + ", children: [\""@ + comma_joined(
                named,
                j + 1 as int,
            ));
        }
        j = j + 1;
    }
    res.append("\"]\n");
    proof {
        assert(res@ =~= tree_line(nodes, i as int));
    }
    // then the subtrees of the node children
    let mut k: usize = 0;
    while k < node.children.len()
        invariant
            graph.wf(),
            i < graph@.nodes.len(),
            nodes == graph@.nodes,
            node@ == nodes[i as int],
            0 <= k <= node.children@.len(),
            tree_rest(nodes, i as int, k as int, res@) == tree_rest(
                nodes,
                i as int,
                0,
                tree_line(nodes, i as int),
            ),
        decreases node.children@.len() - k,
    {
        proof {
            assert(node@.children[k as int] == node.children@[k as int]@);
        }
        match &node.children[k] {
            NodeOrToken::N(c) => {
                proof {
                    assert(nodes[i as int].children[k as int] == ChildM::N(*c as int));
                    assert((i as int) < *c < nodes.len());
                }
                let sub = tree_lines_at(graph, *c);
                res.append(sub.as_str());
            },
            NodeOrToken::T(t) => {},
        }
        k = k + 1;
    }
    res
}

impl Graph {
    /// The structural listing of the arena: every node's subtree in
    /// identity order, one line per node naming its node children.
    pub fn print_tree(&self) -> (r: String)
        requires
            self.wf(),
        ensures
            r@ == all_tree_lines(self@.nodes, self@.nodes.len() as int),
    {
        let mut res = String::new();
        let n = self.nodes.len();
        let mut i: usize = 0;
        while i < n
            invariant
                self.wf(),
                n == self@.nodes.len(),
                0 <= i <= n,
                res@ == all_tree_lines(self@.nodes, i as int),
            decreases n - i,
        {
            let sub = tree_lines_at(self, i);
            res.append(sub.as_str());
            i = i + 1;
        }
        res
    }
}

} // verus!
