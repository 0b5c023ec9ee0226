//! The diagram of a function in the DOT language of Graphviz: one cluster per variable with its
//! nodes, then the edges, the low ones dotted.
use vstd::prelude::*;
use std::collections::HashSet;
use crate::bdd_node::{DDNode, NodeID};
use crate::bdd_manager::DDManager;
use crate::bdd_file::{decimal, push_decimal, push_text, chars_to_string};

verus! {

broadcast use vstd::std_specs::hash::group_hash_axioms;

/// The line that declares a node in its cluster, labelled with its variable and its ID.
pub open spec fn node_decl(n: DDNode) -> Seq<char> {
    "\""@ + decimal(n.id.0 as nat) + "\" [label=\"Var:"@ + decimal(n.var.0 as nat) + "\\n"@ + decimal(n.id.0 as nat) + "\"];\n"@
}

/// The lines of the two edges of a node: the dotted one to its low child, then the one to its
/// high child.
pub open spec fn node_edges(n: DDNode) -> Seq<char> {
    "\""@ + decimal(n.id.0 as nat) + "\" -> \""@ + decimal(n.low.0 as nat) + "\" [style = \"dotted\"];\n"@
        + "\""@ + decimal(n.id.0 as nat) + "\" -> \""@ + decimal(n.high.0 as nat) + "\";\n"@
}

/// The nodes of variable `v` among the first `k` slots that are in `keep`, in the order of the
/// slots.
pub open spec fn var_nodes(nodes: Seq<Option<DDNode>>, keep: Set<usize>, v: usize, k: int) -> Seq<DDNode>
    decreases k,
{
    if k <= 0 {
        Seq::empty()
    } else {
        var_nodes(nodes, keep, v, k - 1) + if keep.contains((k - 1) as usize) && nodes[k - 1] is Some
            && nodes[k - 1].unwrap().var.0 == v {
            seq![nodes[k - 1].unwrap()]
        } else {
            Seq::empty()
        }
    }
}

/// The declarations of the nodes, one after the other.
pub open spec fn decls(ns: Seq<DDNode>) -> Seq<char>
    decreases ns.len(),
{
    if ns.len() == 0 {
        Seq::empty()
    } else {
        decls(ns.drop_last()) + node_decl(ns.last())
    }
}

/// The edges of the nodes, one node after the other.
pub open spec fn edge_lines(ns: Seq<DDNode>) -> Seq<char>
    decreases ns.len(),
{
    if ns.len() == 0 {
        Seq::empty()
    } else {
        edge_lines(ns.drop_last()) + node_edges(ns.last())
    }
}

/// The cluster of a variable with its nodes.
pub open spec fn cluster(v: usize, ns: Seq<DDNode>) -> Seq<char> {
    "subgraph cluster_"@ + decimal(v as nat) + " {\nrank=same;\n"@ + decls(ns) + "}\n\n"@
}

/// The clusters of the variables from 1 up to `v - 1` that have nodes in `keep`.
pub open spec fn clusters(nodes: Seq<Option<DDNode>>, keep: Set<usize>, v: int) -> Seq<char>
    decreases v,
{
    if v <= 1 {
        Seq::empty()
    } else {
        let ns = var_nodes(nodes, keep, (v - 1) as usize, nodes.len() as int);
        clusters(nodes, keep, v - 1) + if ns.len() > 0 { cluster((v - 1) as usize, ns) } else { Seq::empty() }
    }
}

/// The edges of the nodes in `keep` of the variables from 1 up to `v - 1`, variable by variable.
pub open spec fn all_edges(nodes: Seq<Option<DDNode>>, keep: Set<usize>, v: int) -> Seq<char>
    decreases v,
{
    if v <= 1 {
        Seq::empty()
    } else {
        all_edges(nodes, keep, v - 1) + edge_lines(var_nodes(nodes, keep, (v - 1) as usize, nodes.len() as int))
    }
}

/// The DOT text of the diagram of `f`: the two terminals as boxes, a cluster per variable with
/// the nodes of the diagram, then their edges.
pub open spec fn dot_text(man: DDManager, f: NodeID) -> Seq<char> {
    let keep = Set::new(|y: usize| man.reaches(f.0 as int, y as int));
    let n = man.var2level@.len() as int;
    "digraph G {\n"@ + "newrank=true;\n"@ + "\"1\" [shape = \"box\"];\n"@ + "\"0\" [shape = \"box\"];\n"@
        + clusters(man.nodes@, keep, n) + all_edges(man.nodes@, keep, n) + "}\n"@
}

/// Appends the declaration of a node.
fn push_decl(out: &mut Vec<char>, n: &DDNode)
    ensures
        final(out)@ == old(out)@ + node_decl(*n),
{
    push_text(out, "\"");
    push_decimal(out, n.id.0);
    push_text(out, "\" [label=\"Var:");
    push_decimal(out, n.var.0);
    push_text(out, "\\n");
    push_decimal(out, n.id.0);
    push_text(out, "\"];\n");
    proof {
        assert(out@ =~= old(out)@ + node_decl(*n));
    }
}

/// Appends the edges of a node.
fn push_edges(out: &mut Vec<char>, n: &DDNode)
    ensures
        final(out)@ == old(out)@ + node_edges(*n),
{
    push_text(out, "\"");
    push_decimal(out, n.id.0);
    push_text(out, "\" -> \"");
    push_decimal(out, n.low.0);
    push_text(out, "\" [style = \"dotted\"];\n");
    push_text(out, "\"");
    push_decimal(out, n.id.0);
    push_text(out, "\" -> \"");
    push_decimal(out, n.high.0);
    push_text(out, "\";\n");
    proof {
        assert(out@ =~= old(out)@ + node_edges(*n));
    }
}

/// Appends the characters of `b`.
fn push_all(out: &mut Vec<char>, b: &Vec<char>)
    ensures
        final(out)@ == old(out)@ + b@,
{
    let mut k: usize = 0;
    while k < b.len()
        invariant
            k <= b@.len(),
            out@ == old(out)@ + b@.subrange(0, k as int),
        decreases b@.len() - k,
    {
        out.push(b[k]);
        proof {
            assert(b@.subrange(0, k + 1) =~= b@.subrange(0, k as int).push(b@[k as int]));
        }
        k = k + 1;
    }
    proof {
        assert(b@.subrange(0, b@.len() as int) =~= b@);
    }
}

impl DDManager {
    /// Generate graphviz for the provided function, not including any graph nodes not part of
    /// the function: the variables in ascending order, the nodes of each in the order of their
    /// IDs.
    pub fn graphviz(&self, f: NodeID) -> (r: String)
        requires
            self.wf(),
            self.live(f.0 as int),
        ensures
            r@ == dot_text(*self, f),
    {
        let roots = vec![f];
        let keep = self.get_reachable(roots.as_slice());
        let ghost k = Set::new(|y: usize| self.reaches(f.0 as int, y as int));
        proof {
            self.lemma_valid_levels();
            assert(keep@ =~= k) by {
                assert forall|y: usize| keep@.contains(y) <==> k.contains(y) by {
                    if self.reaches(f.0 as int, y as int) {
                        assert(roots@[0] == f);
                        assert(self.reachable_from(roots@, y as int));
                    }
                }
            }
        }
        let ghost nodes = self.nodes@;
        let mut graph: Vec<char> = Vec::new();
        push_text(&mut graph, "digraph G {\n");
        push_text(&mut graph, "newrank=true;\n");
        push_text(&mut graph, "\"1\" [shape = \"box\"];\n");
        push_text(&mut graph, "\"0\" [shape = \"box\"];\n");
        let ghost header = graph@;
        let mut edges: Vec<char> = Vec::new();
        let n = self.var2level.len();
        let mut v: usize = 1;
        proof {
            assert(graph@ =~= header + clusters(nodes, k, 1));
            assert(edges@ =~= all_edges(nodes, k, 1));
        }
        while v < n
            invariant
                1 <= v <= n,
                n == self.var2level@.len(),
                nodes == self.nodes@,
                keep@ == k,
                graph@ == header + clusters(nodes, k, v as int),
                edges@ == all_edges(nodes, k, v as int),
            decreases n - v,
        {
            let mut ns: Vec<DDNode> = Vec::new();
            let mut i: usize = 0;
            while i < self.nodes.len()
                invariant
                    i <= nodes.len(),
                    nodes == self.nodes@,
                    keep@ == k,
                    ns@ == var_nodes(nodes, k, v, i as int),
                decreases nodes.len() - i,
            {
                match self.nodes[i] {
                    Some(nd) => {
                        if keep.contains(&i) && nd.var.0 == v {
                            ns.push(nd);
                        } else {
                            proof {
                                assert(ns@ + Seq::<DDNode>::empty() =~= ns@);
                            }
                        }
                    },
                    None => {
                        proof {
                            assert(ns@ + Seq::<DDNode>::empty() =~= ns@);
                        }
                    },
                }
                i = i + 1;
            }
            let ghost g0 = graph@;
            let ghost e0 = edges@;
            if ns.len() > 0 {
                push_text(&mut graph, "subgraph cluster_");
                push_decimal(&mut graph, v);
                push_text(&mut graph, " {\nrank=same;\n");
                let ghost g1 = graph@;
                let mut j: usize = 0;
                proof {
                    assert(ns@.subrange(0, 0) =~= Seq::<DDNode>::empty());
                    assert(graph@ =~= g1 + decls(ns@.subrange(0, 0)));
                    assert(edges@ =~= e0 + edge_lines(ns@.subrange(0, 0)));
                }
                while j < ns.len()
                    invariant
                        j <= ns@.len(),
                        graph@ == g1 + decls(ns@.subrange(0, j as int)),
                        edges@ == e0 + edge_lines(ns@.subrange(0, j as int)),
                    decreases ns@.len() - j,
                {
                    push_decl(&mut graph, &ns[j]);
                    push_edges(&mut edges, &ns[j]);
                    proof {
                        let s1 = ns@.subrange(0, j + 1);
                        assert(s1.drop_last() =~= ns@.subrange(0, j as int));
                        assert(s1.last() == ns@[j as int]);
                        assert(graph@ =~= g1 + decls(s1));
                        assert(edges@ =~= e0 + edge_lines(s1));
                    }
                    j = j + 1;
                }
                push_text(&mut graph, "}\n\n");
                proof {
                    assert(ns@.subrange(0, ns@.len() as int) =~= ns@);
                    assert(graph@ =~= g0 + cluster(v, ns@));
                }
            } else {
                proof {
                    assert(edge_lines(ns@) =~= Seq::<char>::empty());
                }
            }
            proof {
                assert(clusters(nodes, k, v + 1) == clusters(nodes, k, v as int)
                    + if ns@.len() > 0 { cluster(v, ns@) } else { Seq::empty() });
                assert(graph@ =~= header + clusters(nodes, k, v + 1));
                assert(edges@ =~= all_edges(nodes, k, v + 1));
            }
            v = v + 1;
        }
        push_all(&mut graph, &edges);
        push_text(&mut graph, "}\n");
        proof {
            assert(graph@ =~= dot_text(*self, f));
        }
        chars_to_string(&graph)
    }
}

} // verus!
