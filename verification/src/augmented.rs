//! A graph given by a list of nodes and a list of edges, with a virtual entry node.

use crate::dominance::RootedGraph;
use crate::sequences;
use vstd::prelude::*;

verus! {

/// Both ends of every edge are nodes.
pub open spec fn knows_edges<T>(nodes: Seq<T>, edges: Seq<(T, T)>) -> bool {
    forall|i: int|
        0 <= i < edges.len() ==> nodes.contains((#[trigger] edges[i]).0) && nodes.contains(
            edges[i].1,
        )
}

/// The given nodes are nodes of the graph.
pub open spec fn knows_nodes<T>(nodes: Seq<T>, others: Seq<T>) -> bool {
    forall|i: int| 0 <= i < others.len() ==> nodes.contains(#[trigger] others[i])
}

/// `n` is an entry node: no edge leads to it from another node.
pub open spec fn is_entry<T>(nodes: Seq<T>, edges: Seq<(T, T)>, n: T) -> bool {
    &&& nodes.contains(n)
    &&& forall|m: T| #[trigger] edges.contains((m, n)) ==> m == n
}

/// The graph has an entry node.
pub open spec fn has_entry<T>(nodes: Seq<T>, edges: Seq<(T, T)>) -> bool {
    exists|n: T| is_entry(nodes, edges, n)
}

/// The graph with a virtual entry node, `None`, that leads to every entry node. Edges from a
/// node to itself are left out.
pub open spec fn augmented<T>(nodes: Seq<T>, edges: Seq<(T, T)>) -> RootedGraph<Option<T>> {
    RootedGraph {
        root: None,
        edges: Set::new(
            |e: (Option<T>, Option<T>)|
                match e {
                    (None, Some(b)) => is_entry(nodes, edges, b),
                    (Some(a), Some(b)) => a != b && edges.contains((a, b)),
                    (_, None) => false,
                },
        ),
    }
}

/// The nodes of the augmented graph that stand for the given nodes.
pub open spec fn targets_of<T>(nodes: Seq<T>) -> Set<Option<T>> {
    Set::new(|n: Option<T>| n is Some && nodes.contains(n->0))
}

/// The `i`-th step of the sequence `p` follows an edge.
pub open spec fn follows_edge<T>(edges: Seq<(T, T)>, p: Seq<T>, i: int) -> bool {
    edges.contains((p[i], p[i + 1]))
}

/// Every step of `p` follows an edge.
pub open spec fn is_path<T>(edges: Seq<(T, T)>, p: Seq<T>) -> bool {
    forall|i: int| 0 <= i < p.len() - 1 ==> #[trigger] follows_edge(edges, p, i)
}

/// No path leads from a node back to it.
pub open spec fn is_acyclic<T>(edges: Seq<(T, T)>) -> bool {
    forall|p: Seq<T>| #[trigger] is_path(edges, p) && p.len() > 1 ==> p[0] != p.last()
}

/// If every node has a predecessor, there are paths of any length.
proof fn lemma_long_path<T>(nodes: Seq<T>, edges: Seq<(T, T)>, k: nat) -> (p: Seq<T>)
    requires
        nodes.len() > 0,
        k > 0,
        knows_edges(nodes, edges),
        !has_entry(nodes, edges),
    ensures
        p.len() == k,
        is_path(edges, p),
        forall|x: T| #[trigger] p.contains(x) ==> nodes.contains(x),
    decreases k,
{
    if k == 1 {
        let p = seq![nodes[0]];
        assert forall|x: T| #[trigger] p.contains(x) implies nodes.contains(x) by {
            assert(nodes[0] == x);
        }
        p
    } else {
        let q = lemma_long_path(nodes, edges, (k - 1) as nat);
        let n = q[0];
        assert(q.contains(n));
        assert(!is_entry(nodes, edges, n));
        let m = choose|m: T| #[trigger] edges.contains((m, n)) && m != n;
        let p = seq![m] + q;
        assert(nodes.contains(edges[edges.index_of((m, n))].0));
        assert forall|i: int| 0 <= i < p.len() - 1 implies #[trigger] follows_edge(
            edges,
            p,
            i,
        ) by {
            if i > 0 {
                assert(follows_edge(edges, q, i - 1));
            }
        }
        assert forall|x: T| #[trigger] p.contains(x) implies nodes.contains(x) by {
            let j = p.index_of(x);
            if j > 0 {
                assert(q.contains(q[j - 1]));
            }
        }
        p
    }
}

/// A directed acyclic graph with a node has an entry node.
pub proof fn law_acyclic_graph_has_entry<T>(nodes: Seq<T>, edges: Seq<(T, T)>)
    requires
        nodes.len() > 0,
        knows_edges(nodes, edges),
        is_acyclic(edges),
    ensures
        has_entry(nodes, edges),
{
    if !has_entry(nodes, edges) {
        let p = lemma_long_path(nodes, edges, nodes.len() + 1);
        if p.no_duplicates() {
            sequences::lemma_no_longer(p, nodes);
        }
        let (i, j) = choose|i: int, j: int|
            0 <= i < p.len() && 0 <= j < p.len() && i != j && p[i] == p[j];
        let (a, b) = if i < j {
            (i, j)
        } else {
            (j, i)
        };
        let q = p.subrange(a, b + 1);
        assert forall|k: int| 0 <= k < q.len() - 1 implies #[trigger] follows_edge(
            edges,
            q,
            k,
        ) by {
            assert(follows_edge(edges, p, a + k));
        }
        assert(is_path(edges, q) && q[0] == q.last());
    }
}

/// The virtual entry closes no cycle.
pub proof fn law_acyclic_graph_stays_acyclic<T>(nodes: Seq<T>, edges: Seq<(T, T)>)
    requires
        is_acyclic(edges),
    ensures
        augmented(nodes, edges).is_acyclic(),
{
    let g = augmented(nodes, edges);
    assert forall|a: Option<T>, b: Option<T>| #[trigger] g.edges.contains((a, b)) implies
        !g.rooted_at(b).reachable(a) by {
        let h = g.rooted_at(b);
        if h.reachable(a) {
            let p = choose|p: Seq<Option<T>>| h.walk_to(p, a);
            assert forall|i: int| 0 <= i < p.len() implies #[trigger] p[i] is Some by {
                if i > 0 {
                    assert(h.step(p, i - 1));
                }
            }
            let q = Seq::new(p.len() + 1, |i: int| if i == 0 { a->0 } else { p[i - 1]->0 });
            assert forall|i: int| 0 <= i < q.len() - 1 implies #[trigger] follows_edge(
                edges,
                q,
                i,
            ) by {
                if i > 0 {
                    assert(h.step(p, i - 1));
                    assert(p[i - 1] is Some && p[i] is Some);
                } else {
                    assert(p[0] is Some);
                    assert(p[p.len() - 1] is Some);
                }
            }
            assert(is_path(edges, q));
            assert(q[0] == q.last());
        }
    }
}

/// It makes no difference in which order nodes and edges are listed, nor how often.
pub proof fn law_order_and_repetition_do_not_matter<T>(
    nodes: Seq<T>,
    edges: Seq<(T, T)>,
    other_nodes: Seq<T>,
    other_edges: Seq<(T, T)>,
)
    requires
        forall|n: T| #[trigger] nodes.contains(n) <==> other_nodes.contains(n),
        forall|e: (T, T)| #[trigger] edges.contains(e) <==> other_edges.contains(e),
    ensures
        knows_edges(nodes, edges) == knows_edges(other_nodes, other_edges),
        has_entry(nodes, edges) == has_entry(other_nodes, other_edges),
        augmented(nodes, edges) == augmented(other_nodes, other_edges),
{
    assert forall|n: T| is_entry(nodes, edges, n) <==> is_entry(other_nodes, other_edges, n) by {
        if is_entry(nodes, edges, n) {
            assert forall|m: T| #[trigger] other_edges.contains((m, n)) implies m == n by {
                assert(edges.contains((m, n)));
            }
        }
        if is_entry(other_nodes, other_edges, n) {
            assert forall|m: T| #[trigger] edges.contains((m, n)) implies m == n by {
                assert(other_edges.contains((m, n)));
            }
        }
    }
    if knows_edges(nodes, edges) {
        assert forall|i: int| 0 <= i < other_edges.len() implies other_nodes.contains(
            (#[trigger] other_edges[i]).0,
        ) && other_nodes.contains(other_edges[i].1) by {
            assert(other_edges.contains(other_edges[i]));
            assert(edges.contains(other_edges[i]));
            let k = edges.index_of(other_edges[i]);
            assert(nodes.contains(edges[k].0) && nodes.contains(edges[k].1));
        }
    }
    if knows_edges(other_nodes, other_edges) {
        assert forall|i: int| 0 <= i < edges.len() implies nodes.contains((#[trigger] edges[i]).0)
            && nodes.contains(edges[i].1) by {
            assert(edges.contains(edges[i]));
            let k = other_edges.index_of(edges[i]);
            assert(other_nodes.contains(other_edges[k].0) && other_nodes.contains(
                other_edges[k].1,
            ));
        }
    }
    assert(augmented(nodes, edges).edges =~= augmented(other_nodes, other_edges).edges);
}

/// In a graph with a single entry node, that node dominates every node that the virtual entry
/// leads to.
pub proof fn law_single_entry_dominates<T>(nodes: Seq<T>, edges: Seq<(T, T)>, entry: T, n: T)
    requires
        forall|m: T| #[trigger] is_entry(nodes, edges, m) <==> m == entry,
        augmented(nodes, edges).reachable(Some(n)),
    ensures
        augmented(nodes, edges).dominates(Some(entry), Some(n)),
{
    let g = augmented(nodes, edges);
    assert forall|p: Seq<Option<T>>| #[trigger] g.walk_to(p, Some(n)) implies p.contains(
        Some(entry),
    ) by {
        assert(g.step(p, 0));
        assert(is_entry(nodes, edges, p[1]->0));
        assert(p[1] == Some(entry));
    }
}

} // verus!
