//! Ways along the edges of a graph, and what they have to do with dominance.

use crate::dominance::RootedGraph;
use vstd::prelude::*;

verus! {

/// Each node of `p` but the last has an edge to the next.
pub open spec fn along<T>(edges: Seq<(T, T)>, p: Seq<T>) -> bool {
    forall|i: int, j: int|
        0 <= i && j == i + 1 && j < p.len() ==> edges.contains((#[trigger] p[i], #[trigger] p[j]))
}

/// `p` is a way to `t` from one of the given entry nodes.
pub open spec fn is_way<T>(entries: Set<T>, edges: Seq<(T, T)>, p: Seq<T>, t: T) -> bool {
    &&& p.len() > 0
    &&& entries.contains(p[0])
    &&& p.last() == t
    &&& along(edges, p)
}

/// There is a way to `t`.
pub open spec fn has_way<T>(entries: Set<T>, edges: Seq<(T, T)>, t: T) -> bool {
    exists|p: Seq<T>| is_way(entries, edges, p, t)
}

/// `z` is on every way to `t`. Where there is no way to `t`, it is `t`.
pub open spec fn guards<T>(entries: Set<T>, edges: Seq<(T, T)>, z: T, t: T) -> bool {
    if has_way(entries, edges, t) {
        forall|p: Seq<T>| #[trigger] is_way(entries, edges, p, t) ==> p.contains(z)
    } else {
        z == t
    }
}

/// `z` guards all of the given nodes.
pub open spec fn guards_all<T>(
    entries: Set<T>,
    edges: Seq<(T, T)>,
    z: T,
    targets: Seq<T>,
) -> bool {
    forall|t: T| #[trigger] targets.contains(t) ==> guards(entries, edges, z, t)
}

/// `h` has the given edges but for those from a node to itself, and leads from its root, `None`, to
/// the entry nodes.
pub open spec fn leads_to_entries<T>(
    h: RootedGraph<Option<T>>,
    entries: Set<T>,
    edges: Seq<(T, T)>,
) -> bool {
    &&& h.root is None
    &&& forall|a: Option<T>, b: Option<T>| #[trigger]
        h.edges.contains((a, b)) <==> match (a, b) {
            (None, Some(y)) => entries.contains(y),
            (Some(x), Some(y)) => x != y && edges.contains((x, y)),
            (_, None) => false,
        }
}

/// Every way has a walk that visits no other nodes.
proof fn lemma_way_is_walked<T>(
    h: RootedGraph<Option<T>>,
    entries: Set<T>,
    edges: Seq<(T, T)>,
    p: Seq<T>,
) -> (w: Seq<Option<T>>)
    requires
        leads_to_entries(h, entries, edges),
        is_way(entries, edges, p, p.last()),
    ensures
        h.walk_to(w, Some(p.last())),
        forall|x: T| #[trigger] w.contains(Some(x)) ==> p.contains(x),
    decreases p.len(),
{
    if p.len() == 1 {
        let start = p[0];
        h.lemma_root_reachable();
        h.lemma_walk_push(seq![h.root], h.root, Some(start));
        let w = seq![h.root].push(Some(start));
        assert forall|x: T| #[trigger] w.contains(Some(x)) implies p.contains(x) by {
            assert(p[0] == x);
        }
        w
    } else {
        let q = p.drop_last();
        assert(along(edges, q)) by {
            assert forall|i: int, j: int| 0 <= i && j == i + 1 && j < q.len() implies edges.contains(
                (#[trigger] q[i], #[trigger] q[j]),
            ) by {
                assert(q[i] == p[i] && q[j] == p[j]);
            }
        }
        let v = lemma_way_is_walked(h, entries, edges, q);
        assert forall|x: T| #[trigger] q.contains(x) implies p.contains(x) by {
            assert(p[q.index_of(x)] == x);
        }
        let a = p[p.len() - 2];
        let b = p[p.len() - 1];
        assert(edges.contains((a, b)));
        if a == b {
            v
        } else {
            assert(h.edges.contains((Some(a), Some(b))));
            h.lemma_walk_push(v, Some(a), Some(b));
            let w = v.push(Some(b));
            assert forall|x: T| #[trigger] w.contains(Some(x)) implies p.contains(x) by {
                if w.index_of(Some(x)) == v.len() {
                    assert(p[p.len() - 1] == x);
                } else {
                    assert(v[w.index_of(Some(x))] == Some(x));
                    assert(v.contains(Some(x)));
                }
            }
            w
        }
    }
}

/// Every walk is a way with the root in front of it.
proof fn lemma_walk_is_way<T>(
    h: RootedGraph<Option<T>>,
    entries: Set<T>,
    edges: Seq<(T, T)>,
    w: Seq<Option<T>>,
    t: T,
) -> (p: Seq<T>)
    requires
        leads_to_entries(h, entries, edges),
        h.walk_to(w, Some(t)),
    ensures
        is_way(entries, edges, p, t),
        forall|x: T| #[trigger] p.contains(x) ==> w.contains(Some(x)),
{
    let p = Seq::new((w.len() - 1) as nat, |i: int| w[i + 1]->0);
    assert forall|i: int| 0 < i < w.len() implies #[trigger] w[i] is Some by {
        assert(h.step(w, i - 1));
        assert(h.edges.contains((w[i - 1], w[i])));
    }
    assert(h.step(w, 0));
    assert(h.edges.contains((w[0], w[1])));
    assert forall|i: int, j: int| 0 <= i && j == i + 1 && j < p.len() implies edges.contains(
        (#[trigger] p[i], #[trigger] p[j]),
    ) by {
        assert(h.step(w, i + 1));
        assert(w[i + 1] is Some && w[i + 2] is Some);
        assert(h.edges.contains((w[i + 1], w[i + 2])));
    }
    assert forall|x: T| #[trigger] p.contains(x) implies w.contains(Some(x)) by {
        let i = p.index_of(x);
        assert(w[i + 1] is Some);
        assert(w[i + 1] == Some(x));
    }
    p
}

/// What can be reached is what there is a way to.
pub proof fn lemma_reachable_has_way<T>(
    h: RootedGraph<Option<T>>,
    entries: Set<T>,
    edges: Seq<(T, T)>,
    t: T,
)
    requires
        leads_to_entries(h, entries, edges),
    ensures
        h.reachable(Some(t)) <==> has_way(entries, edges, t),
{
    if h.reachable(Some(t)) {
        let w = choose|w: Seq<Option<T>>| h.walk_to(w, Some(t));
        let p = lemma_walk_is_way(h, entries, edges, w, t);
        assert(is_way(entries, edges, p, t));
    }
    if has_way(entries, edges, t) {
        let p = choose|p: Seq<T>| is_way(entries, edges, p, t);
        let w = lemma_way_is_walked(h, entries, edges, p);
        assert(h.walk_to(w, Some(t)));
    }
}

/// A node dominates another just if it guards it.
pub proof fn lemma_dominates_guards<T>(
    h: RootedGraph<Option<T>>,
    entries: Set<T>,
    edges: Seq<(T, T)>,
    z: T,
    t: T,
)
    requires
        leads_to_entries(h, entries, edges),
    ensures
        h.dominates(Some(z), Some(t)) <==> guards(entries, edges, z, t),
{
    lemma_reachable_has_way(h, entries, edges, t);
    if has_way(entries, edges, t) {
        if h.dominates(Some(z), Some(t)) {
            assert forall|p: Seq<T>| #[trigger] is_way(entries, edges, p, t) implies p.contains(
                z,
            ) by {
                let w = lemma_way_is_walked(h, entries, edges, p);
                assert(w.contains(Some(z)));
            }
        }
        if guards(entries, edges, z, t) {
            assert forall|w: Seq<Option<T>>| #[trigger] h.walk_to(w, Some(t)) implies w.contains(
                Some(z),
            ) by {
                let p = lemma_walk_is_way(h, entries, edges, w, t);
                assert(p.contains(z));
            }
        }
    }
}

/// The closest common dominator of some nodes guards all of them, and whatever guards all of them
/// guards it. If it is the root, nothing guards all of them.
pub proof fn lemma_closest_guards<T>(
    h: RootedGraph<Option<T>>,
    entries: Set<T>,
    edges: Seq<(T, T)>,
    targets: Seq<T>,
    named: Set<Option<T>>,
    z: Option<T>,
)
    requires
        leads_to_entries(h, entries, edges),
        targets.len() > 0,
        forall|n: Option<T>| #[trigger] named.contains(n) <==> n is Some && targets.contains(n->0),
        h.is_closest_common_dominator(named, z),
    ensures
        z is Some ==> guards_all(entries, edges, z->0, targets),
        z is Some ==> forall|y: T| #[trigger]
            guards_all(entries, edges, y, targets) ==> guards(entries, edges, y, z->0),
        z is None ==> forall|y: T| !#[trigger] guards_all(entries, edges, y, targets),
{
    assert(targets.contains(targets[0]));
    assert(named.contains(Some(targets[0])));
    assert forall|y: T| #[trigger] guards_all(entries, edges, y, targets)
        <==> h.is_common_dominator(named, Some(y)) by {
        assert forall|t: T| targets.contains(t) implies (#[trigger] guards(entries, edges, y, t)
            <==> h.dominates(Some(y), Some(t))) by {
            lemma_dominates_guards(h, entries, edges, y, t);
        }
        if guards_all(entries, edges, y, targets) {
            assert forall|n: Option<T>| #[trigger] named.contains(n) implies h.dominates(
                Some(y),
                n,
            ) by {
                assert(targets.contains(n->0));
                assert(guards(entries, edges, y, n->0));
            }
        }
        if h.is_common_dominator(named, Some(y)) {
            assert forall|t: T| #[trigger] targets.contains(t) implies guards(
                entries,
                edges,
                y,
                t,
            ) by {
                assert(named.contains(Some(t)));
            }
        }
    }
    assert forall|y: T| #[trigger] guards_all(entries, edges, y, targets) implies z is Some
        && guards(entries, edges, y, z->0) by {
        h.law_common_dominators_dominate_closest(named, Some(targets[0]), z, Some(y));
        if z is None {
            h.lemma_dominators_of_root(Some(y));
        } else {
            lemma_dominates_guards(h, entries, edges, y, z->0);
        }
    }
    if z is Some {
        assert(guards_all(entries, edges, z->0, targets) <==> h.is_common_dominator(
            named,
            Some(z->0),
        ));
    }
}

/// At most one node guards all of the given nodes and is guarded by everything that does.
pub proof fn law_closest_guard_unique<T>(
    entries: Set<T>,
    edges: Seq<(T, T)>,
    targets: Seq<T>,
    y: T,
    z: T,
)
    requires
        guards_all(entries, edges, y, targets),
        guards_all(entries, edges, z, targets),
        forall|x: T| #[trigger]
            guards_all(entries, edges, x, targets) ==> guards(entries, edges, x, y),
        forall|x: T| #[trigger]
            guards_all(entries, edges, x, targets) ==> guards(entries, edges, x, z),
    ensures
        y == z,
{
    let h = RootedGraph {
        root: None,
        edges: Set::new(
            |e: (Option<T>, Option<T>)|
                match e {
                    (None, Some(b)) => entries.contains(b),
                    (Some(a), Some(b)) => a != b && edges.contains((a, b)),
                    (_, None) => false,
                },
        ),
    };
    assert(leads_to_entries(h, entries, edges));
    lemma_dominates_guards(h, entries, edges, y, z);
    lemma_dominates_guards(h, entries, edges, z, y);
    h.law_dominates_antisymmetric(Some(y), Some(z));
}

/// `side` holds the entry nodes other than `z` and, with every node, the nodes other than `z` to
/// which that has an edge. It does not hold `z`.
pub open spec fn is_side<T>(entries: Set<T>, edges: Seq<(T, T)>, z: T, side: Set<T>) -> bool {
    &&& !side.contains(z)
    &&& forall|n: T| #[trigger] entries.contains(n) && n != z ==> side.contains(n)
    &&& forall|a: T, b: T| #[trigger]
        edges.contains((a, b)) && side.contains(a) && b != z ==> side.contains(b)
}

/// There is a way to every entry node and, with every node, to the nodes to which that has an edge.
/// There is a way to nothing else.
pub proof fn law_has_way_is_least<T>(entries: Set<T>, edges: Seq<(T, T)>, closed: Set<T>)
    requires
        forall|n: T| #[trigger] entries.contains(n) ==> closed.contains(n),
        forall|a: T, b: T| #[trigger]
            edges.contains((a, b)) && closed.contains(a) ==> closed.contains(b),
    ensures
        forall|n: T| #[trigger] entries.contains(n) ==> has_way(entries, edges, n),
        forall|a: T, b: T| #[trigger]
            edges.contains((a, b)) && has_way(entries, edges, a) ==> has_way(entries, edges, b),
        forall|n: T| #[trigger] has_way(entries, edges, n) ==> closed.contains(n),
{
    assert forall|n: T| #[trigger] entries.contains(n) implies has_way(entries, edges, n) by {
        assert(is_way(entries, edges, seq![n], n));
    }
    assert forall|a: T, b: T| #[trigger]
        edges.contains((a, b)) && has_way(entries, edges, a) implies has_way(
        entries,
        edges,
        b,
    ) by {
        let p = choose|p: Seq<T>| is_way(entries, edges, p, a);
        lemma_way_push(entries, edges, p, a, b);
    }
    assert forall|n: T| #[trigger] has_way(entries, edges, n) implies closed.contains(n) by {
        let p = choose|p: Seq<T>| is_way(entries, edges, p, n);
        lemma_way_stays(entries, edges, p, closed);
    }
}

/// A way goes on along an edge.
proof fn lemma_way_push<T>(entries: Set<T>, edges: Seq<(T, T)>, p: Seq<T>, a: T, b: T)
    requires
        is_way(entries, edges, p, a),
        edges.contains((a, b)),
    ensures
        is_way(entries, edges, p.push(b), b),
{
    let q = p.push(b);
    assert forall|i: int, j: int| 0 <= i && j == i + 1 && j < q.len() implies edges.contains(
        (#[trigger] q[i], #[trigger] q[j]),
    ) by {
        if j < p.len() {
            assert(q[i] == p[i] && q[j] == p[j]);
        }
    }
}

/// A way without its last node is a way.
proof fn lemma_way_pop<T>(entries: Set<T>, edges: Seq<(T, T)>, p: Seq<T>)
    requires
        is_way(entries, edges, p, p.last()),
        p.len() > 1,
    ensures
        is_way(entries, edges, p.drop_last(), p[p.len() - 2]),
        edges.contains((p[p.len() - 2], p.last())),
{
    let q = p.drop_last();
    assert forall|i: int, j: int| 0 <= i && j == i + 1 && j < q.len() implies edges.contains(
        (#[trigger] q[i], #[trigger] q[j]),
    ) by {
        assert(q[i] == p[i] && q[j] == p[j]);
    }
    assert(edges.contains((p[p.len() - 2], p[p.len() - 1])));
}

/// A way does not leave what is closed under edges.
proof fn lemma_way_stays<T>(entries: Set<T>, edges: Seq<(T, T)>, p: Seq<T>, closed: Set<T>)
    requires
        is_way(entries, edges, p, p.last()),
        forall|n: T| #[trigger] entries.contains(n) ==> closed.contains(n),
        forall|a: T, b: T| #[trigger]
            edges.contains((a, b)) && closed.contains(a) ==> closed.contains(b),
    ensures
        closed.contains(p.last()),
    decreases p.len(),
{
    if p.len() > 1 {
        lemma_way_pop(entries, edges, p);
        lemma_way_stays(entries, edges, p.drop_last(), closed);
    }
}

/// A way that does not go through `z` stays on its side.
proof fn lemma_way_stays_on_side<T>(
    entries: Set<T>,
    edges: Seq<(T, T)>,
    p: Seq<T>,
    z: T,
    side: Set<T>,
)
    requires
        is_way(entries, edges, p, p.last()),
        is_side(entries, edges, z, side),
        !p.contains(z),
    ensures
        side.contains(p.last()),
    decreases p.len(),
{
    assert(p[p.len() - 1] != z);
    if p.len() > 1 {
        lemma_way_pop(entries, edges, p);
        let q = p.drop_last();
        assert forall|i: int| 0 <= i < q.len() implies q[i] != z by {
            assert(q[i] == p[i]);
        }
        lemma_way_stays_on_side(entries, edges, q, z, side);
    }
}

/// A node guards another, to which there is a way, if and only if it separates that from the entry
/// nodes: what can be reached without it does not hold the other.
pub proof fn law_guard_separates<T>(entries: Set<T>, edges: Seq<(T, T)>, z: T, t: T)
    requires
        has_way(entries, edges, t),
    ensures
        guards(entries, edges, z, t) <==> exists|side: Set<T>| #[trigger]
            is_side(entries, edges, z, side) && !side.contains(t),
{
    if guards(entries, edges, z, t) {
        let side = Set::new(
            |n: T| exists|p: Seq<T>| #[trigger] is_way(entries, edges, p, n) && !p.contains(z),
        );
        assert forall|n: T| #[trigger] entries.contains(n) && n != z implies side.contains(n) by {
            let p = seq![n];
            assert(is_way(entries, edges, p, n) && !p.contains(z));
        }
        assert forall|a: T, b: T| #[trigger]
            edges.contains((a, b)) && side.contains(a) && b != z implies side.contains(b) by {
            let p = choose|p: Seq<T>| #[trigger] is_way(entries, edges, p, a) && !p.contains(z);
            lemma_way_push(entries, edges, p, a, b);
            let q = p.push(b);
            assert forall|i: int| 0 <= i < q.len() implies q[i] != z by {
                if i < p.len() {
                    assert(q[i] == p[i]);
                    assert(p.contains(p[i]));
                }
            }
            assert(is_way(entries, edges, q, b) && !q.contains(z));
        }
        assert(!side.contains(z)) by {
            if side.contains(z) {
                let p = choose|p: Seq<T>| #[trigger] is_way(entries, edges, p, z) && !p.contains(z);
                assert(p[p.len() - 1] == z);
            }
        }
        assert(is_side(entries, edges, z, side) && !side.contains(t));
    }
    if exists|side: Set<T>| #[trigger]
        is_side(entries, edges, z, side) && !side.contains(t) {
        let side = choose|side: Set<T>| #[trigger]
            is_side(entries, edges, z, side) && !side.contains(t);
        assert forall|p: Seq<T>| #[trigger] is_way(entries, edges, p, t) implies p.contains(z) by {
            if !p.contains(z) {
                lemma_way_stays_on_side(entries, edges, p, z, side);
            }
        }
    }
}

} // verus!
