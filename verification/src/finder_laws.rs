//! Laws of the search in a graph that is given by its nodes and edges.

use crate::augmented;
use crate::ways;
use vstd::prelude::*;

verus! {

/// The nodes to which no edge leads from another node.
pub open spec fn entries<T>(nodes: Seq<T>, edges: Seq<(T, T)>) -> Set<T> {
    Set::new(
        |n: T| nodes.contains(n) && forall|m: T| #[trigger] edges.contains((m, n)) ==> m == n,
    )
}

/// What makes the input wrong: an edge that starts or ends at something other than a node, the lack
/// of a node to which no edge leads from another node, or a target that is not a node.
pub proof fn law_input_errors<T>(nodes: Seq<T>, edges: Seq<(T, T)>, targets: Seq<T>)
    ensures
        augmented::knows_edges(nodes, edges) <==> forall|a: T, b: T| #[trigger]
            edges.contains((a, b)) ==> nodes.contains(a) && nodes.contains(b),
        augmented::has_entry(nodes, edges) <==> exists|n: T| #[trigger]
            entries(nodes, edges).contains(n),
        augmented::knows_nodes(nodes, targets) <==> forall|t: T| #[trigger]
            targets.contains(t) ==> nodes.contains(t),
{
    if augmented::knows_edges(nodes, edges) {
        assert forall|a: T, b: T| #[trigger] edges.contains((a, b)) implies nodes.contains(a)
            && nodes.contains(b) by {
            assert(nodes.contains(edges[edges.index_of((a, b))].0));
        }
    }
    if forall|a: T, b: T| #[trigger]
        edges.contains((a, b)) ==> nodes.contains(a) && nodes.contains(b) {
        assert forall|i: int| 0 <= i < edges.len() implies nodes.contains((#[trigger] edges[i]).0)
            && nodes.contains(edges[i].1) by {
            assert(edges.contains((edges[i].0, edges[i].1)));
        }
    }
    if augmented::has_entry(nodes, edges) {
        let n = choose|n: T| augmented::is_entry(nodes, edges, n);
        assert(entries(nodes, edges).contains(n));
    }
    if exists|n: T| #[trigger] entries(nodes, edges).contains(n) {
        let n = choose|n: T| #[trigger] entries(nodes, edges).contains(n);
        assert(augmented::is_entry(nodes, edges, n));
    }
    if augmented::knows_nodes(nodes, targets) {
        assert forall|t: T| #[trigger] targets.contains(t) implies nodes.contains(t) by {
            assert(nodes.contains(targets[targets.index_of(t)]));
        }
    }
    if forall|t: T| #[trigger] targets.contains(t) ==> nodes.contains(t) {
        assert forall|i: int| 0 <= i < targets.len() implies nodes.contains(
            #[trigger] targets[i],
        ) by {
            assert(targets.contains(targets[i]));
        }
    }
}

/// The closest common dominator of some nodes, at least one, is a node that is on every way from an
/// entry node to each of them. Every other such node is on every way from an entry node to it. There
/// is none if and only if there is no such node. To a node without a way, only the node itself
/// counts as being on every way.
pub proof fn law_closest_is_on_every_way<T>(
    nodes: Seq<T>,
    edges: Seq<(T, T)>,
    targets: Seq<T>,
    result: Option<T>,
)
    requires
        forall|a: T, b: T| #[trigger]
            edges.contains((a, b)) ==> nodes.contains(a) && nodes.contains(b),
        forall|t: T| #[trigger] targets.contains(t) ==> nodes.contains(t),
        targets.len() > 0,
        augmented::augmented(nodes, edges).is_closest_common_dominator(
            augmented::targets_of(targets),
            result,
        ),
    ensures
        ({
            let e = entries(nodes, edges);
            match result {
                Some(z) => {
                    &&& nodes.contains(z)
                    &&& ways::guards_all(e, edges, z, targets)
                    &&& forall|y: T| #[trigger]
                        ways::guards_all(e, edges, y, targets) ==> ways::guards(e, edges, y, z)
                },
                None => forall|y: T| !#[trigger] ways::guards_all(e, edges, y, targets),
            }
        }),
{
    let e = entries(nodes, edges);
    let h = augmented::augmented(nodes, edges);
    assert forall|a: Option<T>, b: Option<T>| #[trigger] h.edges.contains((a, b)) <==> match (
        a,
        b,
    ) {
        (None, Some(y)) => e.contains(y),
        (Some(x), Some(y)) => x != y && edges.contains((x, y)),
        (_, None) => false,
    } by {
        if a is None && b is Some {
            assert(augmented::is_entry(nodes, edges, b->0) <==> e.contains(b->0));
        }
    }
    ways::lemma_closest_guards(
        h,
        e,
        edges,
        targets,
        augmented::targets_of(targets),
        result,
    );
    if result is Some {
        let z = result->0;
        let t = targets[0];
        assert(targets.contains(t));
        assert(ways::guards(e, edges, z, t));
        if ways::has_way(e, edges, t) {
            let p = choose|p: Seq<T>| ways::is_way(e, edges, p, t);
            assert(p.contains(z));
            let i = p.index_of(z);
            if i > 0 {
                assert(edges.contains((p[i - 1], p[i])));
            }
        }
    }
}

} // verus!
