//! Dominance does not depend on what the nodes are called.

use crate::dominance::RootedGraph;
use vstd::prelude::*;

verus! {

/// `h` is `g` with each node `x` of `nodes` renamed to `f(x)`, and distinct nodes keep distinct
/// names.
pub open spec fn relabels<X, Y>(
    g: RootedGraph<X>,
    h: RootedGraph<Y>,
    f: spec_fn(X) -> Y,
    nodes: Set<X>,
) -> bool {
    &&& nodes.contains(g.root)
    &&& h.root == f(g.root)
    &&& forall|a: X, b: X| nodes.contains(a) && nodes.contains(b) && #[trigger] f(a) == #[trigger] f(b) ==> a == b
    &&& forall|a: X, b: X| #[trigger]
        g.edges.contains((a, b)) ==> nodes.contains(a) && nodes.contains(b) && h.edges.contains(
            (f(a), f(b)),
        )
    &&& forall|c: Y, d: Y| #[trigger]
        h.edges.contains((c, d)) ==> exists|a: X, b: X|
            g.edges.contains((a, b)) && #[trigger] f(a) == c && #[trigger] f(b) == d
}

/// The labels along a walk make a walk.
proof fn lemma_push_forward<X, Y>(
    g: RootedGraph<X>,
    h: RootedGraph<Y>,
    f: spec_fn(X) -> Y,
    nodes: Set<X>,
    p: Seq<X>,
    n: X,
)
    requires
        relabels(g, h, f, nodes),
        g.walk_to(p, n),
    ensures
        h.walk_to(p.map_values(f), f(n)),
{
    let q = p.map_values(f);
    assert forall|i: int| 0 <= i < q.len() - 1 implies #[trigger] h.step(q, i) by {
        assert(g.step(p, i));
        assert(g.edges.contains((p[i], p[i + 1])));
    }
}

/// A walk of labels comes from a walk.
proof fn lemma_pull_back<X, Y>(
    g: RootedGraph<X>,
    h: RootedGraph<Y>,
    f: spec_fn(X) -> Y,
    nodes: Set<X>,
    q: Seq<Y>,
    y: Y,
) -> (p: Seq<X>)
    requires
        relabels(g, h, f, nodes),
        h.walk_to(q, y),
    ensures
        p.len() == q.len(),
        g.walk_to(p, p.last()),
        q =~= p.map_values(f),
        forall|i: int| 0 <= i < p.len() ==> nodes.contains(#[trigger] p[i]),
    decreases q.len(),
{
    if q.len() == 1 {
        let p = seq![g.root];
        g.lemma_root_reachable();
        assert(q =~= p.map_values(f));
        p
    } else {
        h.lemma_walk_take(q, y, q.len() - 1);
        let q0 = q.take(q.len() - 1);
        let p0 = lemma_pull_back(g, h, f, nodes, q0, q[q.len() - 2]);
        assert(h.step(q, q.len() - 2));
        assert(h.edges.contains((q[q.len() - 2], y)));
        let (a, b) = choose|a: X, b: X|
            g.edges.contains((a, b)) && #[trigger] f(a) == q[q.len() - 2] && #[trigger] f(b) == y;
        assert(f(p0.last()) == q0[q0.len() - 1]);
        assert(nodes.contains(p0[p0.len() - 1]));
        assert(a == p0.last());
        g.lemma_walk_push(p0, a, b);
        let p = p0.push(b);
        assert(q =~= p.map_values(f)) by {
            assert forall|i: int| 0 <= i < q.len() implies q[i] == p.map_values(f)[i] by {
                if i < q0.len() {
                    assert(q0[i] == p0.map_values(f)[i]);
                }
            }
        }
        p
    }
}

/// A node is reachable just if the node with its new name is.
pub proof fn lemma_relabel_reachable<X, Y>(
    g: RootedGraph<X>,
    h: RootedGraph<Y>,
    f: spec_fn(X) -> Y,
    nodes: Set<X>,
    n: X,
)
    requires
        relabels(g, h, f, nodes),
        nodes.contains(n),
    ensures
        g.reachable(n) <==> h.reachable(f(n)),
{
    if g.reachable(n) {
        let p = choose|p: Seq<X>| g.walk_to(p, n);
        lemma_push_forward(g, h, f, nodes, p, n);
    }
    if h.reachable(f(n)) {
        let end = f(n);
        let q = choose|q: Seq<Y>| h.walk_to(q, end);
        let p = lemma_pull_back(g, h, f, nodes, q, f(n));
        assert(f(p.last()) == q[q.len() - 1]);
        assert(nodes.contains(p[p.len() - 1]));
    }
}

/// Renaming nodes keeps dominance.
pub proof fn law_relabel_dominates<X, Y>(
    g: RootedGraph<X>,
    h: RootedGraph<Y>,
    f: spec_fn(X) -> Y,
    nodes: Set<X>,
    z: X,
    n: X,
)
    requires
        relabels(g, h, f, nodes),
        nodes.contains(z),
        nodes.contains(n),
    ensures
        g.dominates(z, n) <==> h.dominates(f(z), f(n)),
{
    lemma_relabel_reachable(g, h, f, nodes, n);
    if g.reachable(n) {
        if g.on_all_walks(z, n) {
            let end = f(n);
            assert forall|q: Seq<Y>| #[trigger] h.walk_to(q, end) implies q.contains(f(z)) by {
                let p = lemma_pull_back(g, h, f, nodes, q, f(n));
                assert(f(p.last()) == q[q.len() - 1]);
                assert(nodes.contains(p[p.len() - 1]));
                let i = p.index_of(z);
                assert(q[i] == f(z));
            }
        }
        if h.on_all_walks(f(z), f(n)) {
            assert forall|p: Seq<X>| #[trigger] g.walk_to(p, n) implies p.contains(z) by {
                lemma_push_forward(g, h, f, nodes, p, n);
                let q = p.map_values(f);
                let i = q.index_of(f(z));
                lemma_walk_nodes(g, h, f, nodes, p, n, i);
                assert(p[i] == z);
            }
        }
    }
}

/// A walk goes through nodes only.
proof fn lemma_walk_nodes<X, Y>(
    g: RootedGraph<X>,
    h: RootedGraph<Y>,
    f: spec_fn(X) -> Y,
    nodes: Set<X>,
    p: Seq<X>,
    n: X,
    i: int,
)
    requires
        relabels(g, h, f, nodes),
        g.walk_to(p, n),
        0 <= i < p.len(),
    ensures
        nodes.contains(p[i]),
{
    if i > 0 {
        assert(g.step(p, i - 1));
        assert(g.edges.contains((p[i - 1], p[i])));
    }
}

/// Every dominator of a renamed node is a renamed node.
pub proof fn lemma_dominator_has_label<X, Y>(
    g: RootedGraph<X>,
    h: RootedGraph<Y>,
    f: spec_fn(X) -> Y,
    nodes: Set<X>,
    y: Y,
    n: X,
) -> (z: X)
    requires
        relabels(g, h, f, nodes),
        nodes.contains(n),
        h.dominates(y, f(n)),
    ensures
        nodes.contains(z),
        f(z) == y,
{
    if h.reachable(f(n)) {
        let end = f(n);
        let q = choose|q: Seq<Y>| h.walk_to(q, end);
        let p = lemma_pull_back(g, h, f, nodes, q, f(n));
        let i = q.index_of(y);
        assert(nodes.contains(p[i]));
        assert(q[i] == f(p[i]));
        p[i]
    } else if y == f(n) {
        n
    } else {
        g.root
    }
}

/// A common dominator that every common dominator dominates is, under its new name, the
/// closest common dominator of the renamed targets.
pub proof fn lemma_relabel_closest<X, Y>(
    g: RootedGraph<X>,
    h: RootedGraph<Y>,
    f: spec_fn(X) -> Y,
    nodes: Set<X>,
    targets: Set<X>,
    named: Set<Y>,
    t0: X,
    c: X,
)
    requires
        relabels(g, h, f, nodes),
        targets.subset_of(nodes),
        targets.contains(t0),
        nodes.contains(c),
        forall|t: X| #[trigger] targets.contains(t) ==> named.contains(f(t)),
        forall|y: Y| #[trigger]
            named.contains(y) ==> exists|t: X| #[trigger] targets.contains(t) && f(t) == y,
        g.is_common_dominator(targets, c),
        forall|z: X| g.is_common_dominator(targets, z) ==> #[trigger] g.dominates(z, c),
    ensures
        h.is_closest_common_dominator(named, f(c)),
{
    assert forall|y: Y| #[trigger] named.contains(y) implies h.dominates(f(c), y) by {
        let t = choose|t: X| #[trigger] targets.contains(t) && f(t) == y;
        law_relabel_dominates(g, h, f, nodes, c, t);
    }
    assert forall|w: Y| #[trigger]
        h.is_common_dominator(named, w) implies !h.strictly_dominates(f(c), w) by {
        assert(named.contains(f(t0)));
        let z = lemma_dominator_has_label(g, h, f, nodes, w, t0);
        assert forall|t: X| #[trigger] targets.contains(t) implies g.dominates(z, t) by {
            assert(named.contains(f(t)));
            law_relabel_dominates(g, h, f, nodes, z, t);
        }
        assert(g.is_common_dominator(targets, z));
        assert(g.dominates(z, c));
        law_relabel_dominates(g, h, f, nodes, z, c);
        if h.dominates(f(c), w) {
            h.law_dominates_antisymmetric(f(c), w);
        }
    }
}

} // verus!
