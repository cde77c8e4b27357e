//! Merging the root of a graph with a node that only the root leads to.

use crate::dominance::RootedGraph;
use vstd::prelude::*;

verus! {

/// As far as its root leads, `h` is `g` with the root and `v` made one: `f` takes both to the root
/// of `h`, and it takes the other nodes, `nodes`, to different nodes of `h`. Nothing but the root
/// leads to `v`.
pub open spec fn merges<X, Y>(
    g: RootedGraph<X>,
    h: RootedGraph<Y>,
    v: X,
    f: spec_fn(X) -> Y,
    nodes: Set<X>,
) -> bool {
    &&& g.root != v
    &&& !nodes.contains(g.root)
    &&& !nodes.contains(v)
    &&& f(g.root) == h.root
    &&& f(v) == h.root
    &&& g.edges.contains((g.root, v))
    &&& forall|a: X| #[trigger] g.edges.contains((a, v)) ==> a == g.root
    &&& forall|n: X| #[trigger] nodes.contains(n) ==> f(n) != h.root
    &&& forall|m: X, n: X|
        #![trigger nodes.contains(m), nodes.contains(n)]
        nodes.contains(m) && nodes.contains(n) && f(m) == f(n) ==> m == n
    &&& forall|a: X, b: X| #[trigger]
        g.edges.contains((a, b)) ==> {
            &&& a == g.root || a == v || nodes.contains(a)
            &&& b == v || nodes.contains(b) && h.edges.contains((f(a), f(b)))
        }
    &&& forall|c: Y, d: Y| #[trigger]
        h.edges.contains((c, d)) && h.reachable(c) ==> exists|a: X, b: X| #[trigger]
            g.edges.contains((a, b)) && nodes.contains(b) && f(a) == c && f(b) == d
}

/// On a walk of `g`, `v` can only come second, and the root only first.
proof fn lemma_walk_shape<X, Y>(
    g: RootedGraph<X>,
    h: RootedGraph<Y>,
    v: X,
    f: spec_fn(X) -> Y,
    nodes: Set<X>,
    p: Seq<X>,
    n: X,
    i: int,
)
    requires
        merges(g, h, v, f, nodes),
        g.walk_to(p, n),
        0 < i < p.len(),
    ensures
        nodes.contains(p[i]) || i == 1 && p[i] == v,
    decreases i,
{
    assert(g.step(p, i - 1));
    if i > 1 {
        lemma_walk_shape(g, h, v, f, nodes, p, n, i - 1);
    }
}

/// A walk of `g` to a node gives a walk of `h`, through images of nodes on the first.
proof fn lemma_walk_down<X, Y>(
    g: RootedGraph<X>,
    h: RootedGraph<Y>,
    v: X,
    f: spec_fn(X) -> Y,
    nodes: Set<X>,
    p: Seq<X>,
    n: X,
) -> (q: Seq<Y>)
    requires
        merges(g, h, v, f, nodes),
        nodes.contains(n),
        g.walk_to(p, n),
    ensures
        h.walk_to(q, f(n)),
        forall|y: Y| #[trigger]
            q.contains(y) ==> exists|x: X| #[trigger] p.contains(x) && f(x) == y,
{
    assert(p.len() > 1);
    let k: int = if p[1] == v {
        1
    } else {
        0
    };
    let r = p.skip(k);
    let q = r.map_values(f);
    assert forall|i: int| 0 <= i < q.len() - 1 implies #[trigger] h.step(q, i) by {
        assert(g.step(p, i + k));
        lemma_walk_shape(g, h, v, f, nodes, p, n, i + k + 1);
        assert(g.edges.contains((p[i + k], p[i + k + 1])));
        assert(p[i + k + 1] != v);
        assert(q[i] == f(p[i + k]) && q[i + 1] == f(p[i + k + 1]));
    }
    assert(q.last() == f(n));
    assert forall|y: Y| #[trigger] q.contains(y) implies exists|x: X| #[trigger]
        p.contains(x) && f(x) == y by {
        let j = q.index_of(y);
        assert(p.contains(p[j + k]) && f(p[j + k]) == y);
    }
    q
}

/// A walk of `h` comes from a walk of `g`. All nodes on that have their images on the first.
proof fn lemma_walk_up<X, Y>(
    g: RootedGraph<X>,
    h: RootedGraph<Y>,
    v: X,
    f: spec_fn(X) -> Y,
    nodes: Set<X>,
    q: Seq<Y>,
) -> (p: Seq<X>)
    requires
        merges(g, h, v, f, nodes),
        h.walk_to(q, q.last()),
    ensures
        g.walk_to(p, p.last()),
        f(p.last()) == q.last(),
        q.len() == 1 ==> p.last() == g.root,
        q.len() > 1 ==> nodes.contains(p.last()),
        forall|x: X| #[trigger] p.contains(x) ==> q.contains(f(x)),
    decreases q.len(),
{
    if q.len() == 1 {
        g.lemma_root_reachable();
        let p = seq![g.root];
        assert forall|x: X| #[trigger] p.contains(x) implies q.contains(f(x)) by {
            assert(q[0] == f(x));
        }
        p
    } else {
        let l = q.len() as int;
        let r = q.take(l - 1);
        h.lemma_walk_take(q, q.last(), l - 1);
        let s = lemma_walk_up(g, h, v, f, nodes, r);
        assert(h.step(q, l - 2));
        assert(h.walk_to(r, q[l - 2]));
        let (a, b) = choose|a: X, b: X| #[trigger]
            g.edges.contains((a, b)) && nodes.contains(b) && f(a) == q[l - 2] && f(b) == q.last();
        assert forall|x: X| #[trigger] s.contains(x) implies q.contains(f(x)) by {
            let j = r.index_of(f(x));
            assert(q[j] == f(x));
        }
        assert(q.contains(q[l - 1]) && q.contains(q[0]));
        let t = if a == v {
            // Then the walk of `h` so far is the root alone.
            assert(l == 2);
            g.lemma_walk_push(s, g.root, v);
            s.push(v)
        } else {
            s
        };
        assert(t.last() == a);
        assert forall|x: X| #[trigger] t.contains(x) implies q.contains(f(x)) by {
            let j = t.index_of(x);
            if j < s.len() {
                assert(s.contains(s[j]));
            } else {
                assert(f(x) == q[0]);
            }
        }
        g.lemma_walk_push(t, a, b);
        let p = t.push(b);
        assert forall|x: X| #[trigger] p.contains(x) implies q.contains(f(x)) by {
            let j = p.index_of(x);
            if j < t.len() {
                assert(t.contains(t[j]));
            }
        }
        p
    }
}

/// A node is reachable in `g` if and only if its image is in `h`.
pub proof fn lemma_merge_reachable<X, Y>(
    g: RootedGraph<X>,
    h: RootedGraph<Y>,
    v: X,
    f: spec_fn(X) -> Y,
    nodes: Set<X>,
    n: X,
)
    requires
        merges(g, h, v, f, nodes),
        nodes.contains(n),
    ensures
        g.reachable(n) <==> h.reachable(f(n)),
{
    if g.reachable(n) {
        let p = choose|p: Seq<X>| g.walk_to(p, n);
        let q = lemma_walk_down(g, h, v, f, nodes, p, n);
        assert(h.walk_to(q, f(n)));
    }
    let end = f(n);
    if h.reachable(end) {
        let q = choose|q: Seq<Y>| h.walk_to(q, end);
        let p = lemma_walk_up(g, h, v, f, nodes, q);
        assert(p.last() == n);
    }
}

/// Merging the root with `v` does not change which of the other nodes dominates which.
pub proof fn lemma_merge_dominates<X, Y>(
    g: RootedGraph<X>,
    h: RootedGraph<Y>,
    v: X,
    f: spec_fn(X) -> Y,
    nodes: Set<X>,
    z: X,
    n: X,
)
    requires
        merges(g, h, v, f, nodes),
        nodes.contains(z),
        nodes.contains(n),
    ensures
        g.dominates(z, n) <==> h.dominates(f(z), f(n)),
{
    lemma_merge_reachable(g, h, v, f, nodes, n);
    let end = f(n);
    if g.reachable(n) {
        if h.on_all_walks(f(z), end) {
            assert forall|p: Seq<X>| #[trigger] g.walk_to(p, n) implies p.contains(z) by {
                let q = lemma_walk_down(g, h, v, f, nodes, p, n);
                assert(q.contains(f(z)));
                let x = choose|x: X| #[trigger] p.contains(x) && f(x) == f(z);
                let i = p.index_of(x);
                if i > 0 {
                    lemma_walk_shape(g, h, v, f, nodes, p, n, i);
                }
            }
        }
        if g.on_all_walks(z, n) {
            assert forall|q: Seq<Y>| #[trigger] h.walk_to(q, end) implies q.contains(f(z)) by {
                let p = lemma_walk_up(g, h, v, f, nodes, q);
                assert(p.last() == n);
                assert(p.contains(z));
            }
        }
    }
}

/// A dominator in `h` of the image of a node is the root or the image of a node.
proof fn lemma_dominator_below<X, Y>(
    g: RootedGraph<X>,
    h: RootedGraph<Y>,
    v: X,
    f: spec_fn(X) -> Y,
    nodes: Set<X>,
    w: Y,
    n: X,
)
    requires
        merges(g, h, v, f, nodes),
        nodes.contains(n),
        h.dominates(w, f(n)),
    ensures
        w == h.root || exists|x: X| #[trigger] nodes.contains(x) && f(x) == w,
{
    lemma_merge_reachable(g, h, v, f, nodes, n);
    if g.reachable(n) {
        let p = choose|p: Seq<X>| g.walk_to(p, n);
        let q = lemma_walk_down(g, h, v, f, nodes, p, n);
        assert(q.contains(w));
        let x = choose|x: X| #[trigger] p.contains(x) && f(x) == w;
        let i = p.index_of(x);
        if i > 0 {
            lemma_walk_shape(g, h, v, f, nodes, p, n, i);
        }
    } else {
        assert(w == f(n) || w == h.root);
    }
}

/// A dominator in `g` of a node is the root, `v` or a node.
proof fn lemma_dominator_above<X, Y>(
    g: RootedGraph<X>,
    h: RootedGraph<Y>,
    v: X,
    f: spec_fn(X) -> Y,
    nodes: Set<X>,
    z: X,
    n: X,
)
    requires
        merges(g, h, v, f, nodes),
        nodes.contains(n),
        g.dominates(z, n),
    ensures
        z == g.root || z == v || nodes.contains(z),
{
    if g.reachable(n) {
        let p = choose|p: Seq<X>| g.walk_to(p, n);
        let i = p.index_of(z);
        if i > 0 {
            lemma_walk_shape(g, h, v, f, nodes, p, n, i);
        }
    }
}

/// The closest common dominator of some nodes in `g` has as its image their closest common
/// dominator in `h`.
pub proof fn lemma_merge_closest<X, Y>(
    g: RootedGraph<X>,
    h: RootedGraph<Y>,
    v: X,
    f: spec_fn(X) -> Y,
    nodes: Set<X>,
    targets: Set<X>,
    named: Set<Y>,
    t0: X,
    c: X,
)
    requires
        merges(g, h, v, f, nodes),
        targets.contains(t0),
        forall|t: X| #[trigger] targets.contains(t) ==> nodes.contains(t) && named.contains(f(t)),
        forall|y: Y| #[trigger]
            named.contains(y) ==> exists|t: X| #[trigger] targets.contains(t) && f(t) == y,
        g.is_closest_common_dominator(targets, c),
    ensures
        h.is_closest_common_dominator(named, f(c)),
{
    lemma_dominator_above(g, h, v, f, nodes, c, t0);
    assert forall|y: Y| #[trigger] named.contains(y) implies h.dominates(f(c), y) by {
        let t = choose|t: X| #[trigger] targets.contains(t) && f(t) == y;
        if nodes.contains(c) {
            lemma_merge_dominates(g, h, v, f, nodes, c, t);
        } else {
            h.law_root_dominates(y);
        }
    }
    assert forall|w: Y| #[trigger] h.is_common_dominator(named, w) implies !h.strictly_dominates(
        f(c),
        w,
    ) by {
        if h.strictly_dominates(f(c), w) {
            if w == h.root {
                h.lemma_dominators_of_root(f(c));
            } else {
                assert(named.contains(f(t0)));
                lemma_dominator_below(g, h, v, f, nodes, w, t0);
                let x = choose|x: X| #[trigger] nodes.contains(x) && f(x) == w;
                assert forall|t: X| #[trigger] targets.contains(t) implies g.dominates(x, t) by {
                    assert(named.contains(f(t)));
                    lemma_merge_dominates(g, h, v, f, nodes, x, t);
                }
                assert(g.is_common_dominator(targets, x));
                if nodes.contains(c) {
                    lemma_merge_dominates(g, h, v, f, nodes, c, x);
                } else if c == g.root {
                    g.law_root_dominates(x);
                } else {
                    g.law_dominators_form_a_chain(c, x, t0);
                    if g.dominates(x, v) {
                        let p = seq![g.root];
                        g.lemma_root_reachable();
                        g.lemma_walk_push(p, g.root, v);
                        assert(g.reachable(v));
                        assert(p.push(v).contains(x));
                    }
                }
                assert(g.strictly_dominates(c, x));
            }
        }
    }
}

} // verus!
