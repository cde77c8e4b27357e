//! What a depth-first search leaves behind.

use crate::dominance::RootedGraph;
use crate::iteration;
use vstd::prelude::*;

verus! {

/// Every successor in the adjacency lists is a node.
pub open spec fn lists_in_range(adj: Seq<Vec<usize>>) -> bool {
    forall|u: int, j: int|
        0 <= u < adj.len() && 0 <= j < adj[u]@.len() ==> (#[trigger] adj[u]@[j]) < adj.len()
}

/// The graph that adjacency lists describe.
pub open spec fn list_graph(adj: Seq<Vec<usize>>, root: usize) -> RootedGraph<usize> {
    RootedGraph {
        root,
        edges: Set::new(|e: (usize, usize)| e.0 < adj.len() && adj[e.0 as int]@.contains(e.1)),
    }
}

/// A node that comes later in `a` has an edge to the `i`-th node of `a`.
pub open spec fn found_later(adj: Seq<Vec<usize>>, a: Seq<usize>, i: int) -> bool {
    exists|j: int|
        i < j < a.len() && adj[(#[trigger] a[j]) as int]@.contains(a[i])
}

/// `a` lists distinct nodes outside `seen`, and every edge from one of them ends in `a` or
/// in `seen`.
pub open spec fn finished(adj: Seq<Vec<usize>>, seen: Set<usize>, a: Seq<usize>) -> bool {
    &&& a.no_duplicates()
    &&& forall|i: int| 0 <= i < a.len() ==> (#[trigger] a[i]) < adj.len()
    &&& forall|i: int| 0 <= i < a.len() ==> !seen.contains(#[trigger] a[i])
    &&& forall|i: int, y: usize|
        0 <= i < a.len() && #[trigger] adj[a[i] as int]@.contains(y) ==> seen.contains(y)
            || a.contains(y)
}

/// An edge from a node of `a` to a later one closes a cycle.
pub open spec fn later_edges_close_cycles(adj: Seq<Vec<usize>>, a: Seq<usize>) -> bool {
    forall|i: int, j: int|
        #![trigger a[i], a[j]]
        0 <= i < j < a.len() && adj[a[i] as int]@.contains(a[j]) ==> list_graph(
            adj,
            a[j],
        ).reachable(a[i])
}

/// The nodes that a search from `u` adds to the nodes in `seen`, in the order in which it
/// leaves them.
pub open spec fn post_order(
    adj: Seq<Vec<usize>>,
    seen: Set<usize>,
    u: usize,
    a: Seq<usize>,
) -> bool {
    &&& finished(adj, seen, a)
    &&& a.len() > 0
    &&& a.last() == u
    &&& forall|i: int| 0 <= i < a.len() - 1 ==> #[trigger] found_later(adj, a, i)
    &&& later_edges_close_cycles(adj, a)
}

/// The nodes that a search from `u` has added after looking at the first `j` successors
/// of `u`.
pub open spec fn partial_post_order(
    adj: Seq<Vec<usize>>,
    seen: Set<usize>,
    u: usize,
    j: int,
    a: Seq<usize>,
) -> bool {
    &&& finished(adj, seen.insert(u), a)
    &&& forall|i: int|
        0 <= i < a.len() ==> #[trigger] found_later(adj, a, i) || adj[u as int]@.take(
            j,
        ).contains(a[i])
    &&& forall|i: int|
        0 <= i < j ==> seen.insert(u).contains(#[trigger] adj[u as int]@[i]) || a.contains(
            adj[u as int]@[i],
        )
    &&& later_edges_close_cycles(adj, a)
}

/// Skipping a successor that has been seen.
pub proof fn lemma_skip_seen(
    adj: Seq<Vec<usize>>,
    seen: Set<usize>,
    u: usize,
    j: int,
    a: Seq<usize>,
)
    requires
        partial_post_order(adj, seen, u, j, a),
        0 <= j < adj[u as int]@.len(),
        seen.insert(u).contains(adj[u as int]@[j]) || a.contains(adj[u as int]@[j]),
    ensures
        partial_post_order(adj, seen, u, j + 1, a),
{
    let s = adj[u as int]@;
    assert forall|i: int| 0 <= i < a.len() implies #[trigger] found_later(adj, a, i) || s.take(
        j + 1,
    ).contains(a[i]) by {
        if !found_later(adj, a, i) {
            let k = s.take(j).index_of(a[i]);
            assert(s.take(j + 1)[k] == a[i]);
        }
    }
}

/// Searching from a successor that has not been seen.
pub proof fn lemma_extend(
    adj: Seq<Vec<usize>>,
    seen: Set<usize>,
    u: usize,
    j: int,
    a: Seq<usize>,
    b: Seq<usize>,
)
    requires
        partial_post_order(adj, seen, u, j, a),
        0 <= j < adj[u as int]@.len(),
        post_order(adj, seen.insert(u).union(a.to_set()), adj[u as int]@[j], b),
    ensures
        partial_post_order(adj, seen, u, j + 1, a + b),
{
    let s = adj[u as int]@;
    let mid = seen.insert(u).union(a.to_set());
    let c = a + b;
    assert forall|i: int, k: int| 0 <= i < c.len() && 0 <= k < c.len() && i != k implies c[i]
        != c[k] by {
        if i < a.len() && k >= a.len() {
            assert(a.to_set().contains(a[i]));
            assert(!mid.contains(b[k - a.len()]));
        } else if i >= a.len() && k < a.len() {
            assert(a.to_set().contains(a[k]));
            assert(!mid.contains(b[i - a.len()]));
        }
    }
    assert forall|i: int| 0 <= i < c.len() implies (#[trigger] c[i]) < adj.len() && !seen.insert(
        u,
    ).contains(c[i]) by {
        if i < a.len() {
            assert(c[i] == a[i]);
        } else {
            assert(c[i] == b[i - a.len()]);
        }
    }
    assert forall|i: int, y: usize|
        0 <= i < c.len() && #[trigger] adj[c[i] as int]@.contains(y) implies seen.insert(
        u,
    ).contains(y) || c.contains(y) by {
        if i < a.len() {
            assert(adj[a[i] as int]@.contains(y));
            if a.contains(y) {
                assert(c[a.index_of(y)] == y);
            }
        } else {
            assert(adj[b[i - a.len()] as int]@.contains(y));
            if a.contains(y) {
                assert(c[a.index_of(y)] == y);
            } else if b.contains(y) {
                assert(c[b.index_of(y) + a.len()] == y);
            } else {
                assert(mid.contains(y));
            }
        }
    }
    assert forall|i: int| 0 <= i < c.len() implies #[trigger] found_later(adj, c, i) || s.take(
        j + 1,
    ).contains(c[i]) by {
        if i < a.len() {
            if found_later(adj, a, i) {
                let k = choose|k: int|
                    i < k < a.len() && adj[(#[trigger] a[k]) as int]@.contains(a[i]);
                assert(c[k] == a[k]);
                assert(adj[c[k] as int]@.contains(c[i]));
            } else {
                let k = s.take(j).index_of(a[i]);
                assert(s.take(j + 1)[k] == c[i]);
            }
        } else {
            let i2 = i - a.len();
            if i2 < b.len() - 1 {
                assert(found_later(adj, b, i2));
                let k = choose|k: int|
                    i2 < k < b.len() && adj[(#[trigger] b[k]) as int]@.contains(b[i2]);
                assert(c[k + a.len()] == b[k]);
                assert(adj[c[k + a.len()] as int]@.contains(c[i]));
            } else {
                assert(s.take(j + 1)[j] == c[i]);
            }
        }
    }
    assert forall|i: int| 0 <= i < j + 1 implies seen.insert(u).contains(#[trigger] s[i])
        || c.contains(s[i]) by {
        if i < j {
            if a.contains(s[i]) {
                assert(c[a.index_of(s[i])] == s[i]);
            }
        } else {
            assert(c[c.len() - 1] == s[i]);
        }
    }
    assert forall|i: int, k: int|
        #![trigger c[i], c[k]]
        0 <= i < k < c.len() && adj[c[i] as int]@.contains(c[k]) implies list_graph(
        adj,
        c[k],
    ).reachable(c[i]) by {
        if k < a.len() {
            assert(c[i] == a[i] && c[k] == a[k]);
        } else if i >= a.len() {
            assert(c[i] == b[i - a.len()] && c[k] == b[k - a.len()]);
        } else {
            assert(adj[a[i] as int]@.contains(c[k]));
            assert(c[k] == b[k - a.len()]);
            assert(!mid.contains(b[k - a.len()]));
        }
    }
}

/// The node from which a search starts leads to all nodes that it adds.
proof fn lemma_leads_to_added(
    adj: Seq<Vec<usize>>,
    seen: Set<usize>,
    u: usize,
    j: int,
    a: Seq<usize>,
    i: int,
)
    requires
        u < adj.len(),
        0 <= j <= adj[u as int]@.len(),
        partial_post_order(adj, seen, u, j, a),
        0 <= i < a.len(),
    ensures
        list_graph(adj, u).reachable(a[i]),
    decreases a.len() - i,
{
    let g = list_graph(adj, u);
    if found_later(adj, a, i) {
        let k = choose|k: int| i < k < a.len() && adj[(#[trigger] a[k]) as int]@.contains(a[i]);
        lemma_leads_to_added(adj, seen, u, j, a, k);
        let p = choose|p: Seq<usize>| g.walk_to(p, a[k]);
        assert(g.edges.contains((a[k], a[i])));
        g.lemma_walk_push(p, a[k], a[i]);
    } else {
        let s = adj[u as int]@;
        let k = s.take(j).index_of(a[i]);
        assert(s[k] == a[i]);
        g.lemma_root_reachable();
        assert(g.edges.contains((u, a[i])));
        g.lemma_walk_push(seq![u], u, a[i]);
    }
}

/// Leaving a node after all its successors.
pub proof fn lemma_leave(
    adj: Seq<Vec<usize>>,
    seen: Set<usize>,
    u: usize,
    a: Seq<usize>,
)
    requires
        u < adj.len(),
        !seen.contains(u),
        partial_post_order(adj, seen, u, adj[u as int]@.len() as int, a),
    ensures
        post_order(adj, seen, u, a.push(u)),
        seen.insert(u).union(a.to_set()) =~= seen.union(a.push(u).to_set()),
{
    let s = adj[u as int]@;
    let c = a.push(u);
    assert(s.take(s.len() as int) =~= s);
    assert forall|i: int| 0 <= i < c.len() implies (#[trigger] c[i]) < adj.len()
        && !seen.contains(c[i]) by {
        if i < a.len() {
            assert(c[i] == a[i]);
            assert(!seen.insert(u).contains(a[i]));
        }
    }
    assert forall|i: int, k: int| 0 <= i < c.len() && 0 <= k < c.len() && i != k implies c[i]
        != c[k] by {
        if i < a.len() && k == a.len() {
            assert(!seen.insert(u).contains(a[i]));
        } else if k < a.len() && i == a.len() {
            assert(!seen.insert(u).contains(a[k]));
        }
    }
    assert(c[a.len() as int] == u);
    assert forall|i: int, y: usize|
        0 <= i < c.len() && #[trigger] adj[c[i] as int]@.contains(y) implies seen.contains(y)
        || c.contains(y) by {
        if i < a.len() {
            assert(adj[a[i] as int]@.contains(y));
        } else {
            let k = s.index_of(y);
            assert(seen.insert(u).contains(s[k]) || a.contains(s[k]));
        }
        if a.contains(y) {
            assert(c[a.index_of(y)] == y);
        }
        if y == u {
            assert(c.contains(y));
        }
    }
    assert forall|i: int| 0 <= i < c.len() - 1 implies #[trigger] found_later(adj, c, i) by {
        if found_later(adj, a, i) {
            let k = choose|k: int|
                i < k < a.len() && adj[(#[trigger] a[k]) as int]@.contains(a[i]);
            assert(c[k] == a[k]);
            assert(adj[c[k] as int]@.contains(c[i]));
        } else {
            assert(adj[c[a.len() as int] as int]@.contains(c[i]));
        }
    }
    assert forall|i: int, k: int|
        #![trigger c[i], c[k]]
        0 <= i < k < c.len() && adj[c[i] as int]@.contains(c[k]) implies list_graph(
        adj,
        c[k],
    ).reachable(c[i]) by {
        assert(c[i] == a[i]);
        if k < a.len() {
            assert(c[k] == a[k]);
        } else {
            lemma_leads_to_added(adj, seen, u, s.len() as int, a, i);
        }
    }
    assert forall|x: usize|
        seen.insert(u).union(a.to_set()).contains(x) <==> seen.union(c.to_set()).contains(x) by {
        if a.contains(x) {
            assert(c[a.index_of(x)] == x);
        }
        if c.contains(x) {
            let k = c.index_of(x);
            if k < a.len() {
                assert(a[k] == x);
            }
        }
    }
}

/// Every node of a complete post-order is reachable from its last node.
proof fn lemma_post_order_reachable(adj: Seq<Vec<usize>>, u: usize, a: Seq<usize>, i: int)
    requires
        post_order(adj, Set::empty(), u, a),
        0 <= i < a.len(),
    ensures
        list_graph(adj, u).reachable(a[i]),
    decreases a.len() - i,
{
    let g = list_graph(adj, u);
    if i == a.len() - 1 {
        g.lemma_root_reachable();
    } else {
        assert(found_later(adj, a, i));
        let j = choose|j: int| i < j < a.len() && adj[(#[trigger] a[j]) as int]@.contains(a[i]);
        lemma_post_order_reachable(adj, u, a, j);
        let p = choose|p: Seq<usize>| g.walk_to(p, a[j]);
        assert(g.edges.contains((a[j], a[i])));
        g.lemma_walk_push(p, a[j], a[i]);
    }
}

/// Every node of a walk from the last node of a complete post-order is in the post-order.
proof fn lemma_reachable_in_post_order(
    adj: Seq<Vec<usize>>,
    u: usize,
    a: Seq<usize>,
    p: Seq<usize>,
    x: usize,
)
    requires
        post_order(adj, Set::empty(), u, a),
        list_graph(adj, u).walk_to(p, x),
    ensures
        a.contains(x),
    decreases p.len(),
{
    let g = list_graph(adj, u);
    if p.len() == 1 {
        assert(a[a.len() - 1] == x);
    } else {
        let m = p[p.len() - 2];
        g.lemma_walk_take(p, x, p.len() - 1);
        lemma_reachable_in_post_order(adj, u, a, p.take(p.len() - 1), m);
        assert(g.step(p, p.len() - 2));
        let i = a.index_of(m);
        assert(adj[a[i] as int]@.contains(x));
    }
}

/// The reverse of a complete post-order lists the reachable nodes, the root first, and every
/// other node after one of its predecessors.
pub proof fn lemma_reverse_is_flow_order(adj: Seq<Vec<usize>>, u: usize, a: Seq<usize>)
    requires
        post_order(adj, Set::empty(), u, a),
    ensures
        iteration::is_flow_order(list_graph(adj, u), a.reverse()),
{
    let g = list_graph(adj, u);
    let r = a.reverse();
    assert(r.no_duplicates()) by {
        assert forall|i: int, j: int|
            0 <= i < r.len() && 0 <= j < r.len() && i != j implies r[i] != r[j] by {
            assert(a[a.len() - 1 - i] != a[a.len() - 1 - j]);
        }
    }
    assert forall|x: usize| #[trigger] r.contains(x) <==> g.reachable(x) by {
        if r.contains(x) {
            let k = r.index_of(x);
            lemma_post_order_reachable(adj, u, a, a.len() - 1 - k);
        }
        if g.reachable(x) {
            let p = choose|p: Seq<usize>| g.walk_to(p, x);
            lemma_reachable_in_post_order(adj, u, a, p, x);
            let k = a.index_of(x);
            assert(r[a.len() - 1 - k] == x);
        }
    }
    assert forall|x: usize| #[trigger]
        r.contains(x) && x != g.root implies iteration::follows_predecessor(g, r, x) by {
        let k = r.index_of(x);
        let i = a.len() - 1 - k;
        assert(a[i] == x);
        assert(found_later(adj, a, i));
        let j = choose|j: int| i < j < a.len() && adj[(#[trigger] a[j]) as int]@.contains(a[i]);
        let p = a[j];
        assert(r[a.len() - 1 - j] == p);
        assert(r.contains(p));
        assert(r.index_of(p) == a.len() - 1 - j);
        assert(g.edges.contains((p, x)));
    }
}

/// In the reverse of a complete post-order every edge leads forward or closes a cycle.
pub proof fn lemma_reverse_closes_cycles(adj: Seq<Vec<usize>>, u: usize, a: Seq<usize>)
    requires
        post_order(adj, Set::empty(), u, a),
    ensures
        iteration::backward_edges_close_cycles(list_graph(adj, u), a.reverse()),
{
    let g = list_graph(adj, u);
    let r = a.reverse();
    lemma_reverse_is_flow_order(adj, u, a);
    assert forall|x: usize, y: usize| #[trigger] g.edges.contains((x, y)) && r.contains(x) implies
        r.index_of(x) < r.index_of(y) || g.rooted_at(y).reachable(x) by {
        let i = a.len() - 1 - r.index_of(x);
        assert(a[i] == x);
        assert(adj[a[i] as int]@.contains(y));
        assert(a.contains(y));
        let j = a.index_of(y);
        assert(r[a.len() - 1 - j] == y);
        assert(r.contains(y));
        assert(r.index_of(y) == a.len() - 1 - j);
        if i < j {
            assert(list_graph(adj, a[j]).reachable(a[i]));
            assert(g.rooted_at(y) == list_graph(adj, y));
        }
        if i == j {
            g.rooted_at(y).lemma_root_reachable();
        }
    }
}

/// `a` lists the nodes that a depth-first search from `u` adds to the nodes in `seen`, in the
/// order in which it leaves them: first what it adds from the successors of `u`, then `u`.
pub open spec fn visits(adj: Seq<Vec<usize>>, seen: Set<usize>, u: usize, a: Seq<usize>) -> bool
    decreases a.len(), 0nat,
{
    &&& a.len() > 0
    &&& a.last() == u
    &&& visits_successors(adj, seen.insert(u), u, adj[u as int]@.len(), a.drop_last())
}

/// `a` lists the nodes that a depth-first search adds to the nodes in `seen` from the first `j`
/// successors of `u`, which it takes in the order of their list. It passes over a successor that
/// it has seen, and searches from the others.
pub open spec fn visits_successors(
    adj: Seq<Vec<usize>>,
    seen: Set<usize>,
    u: usize,
    j: nat,
    a: Seq<usize>,
) -> bool
    decreases a.len(), j + 1,
{
    if j == 0 {
        a.len() == 0
    } else {
        let v = adj[u as int]@[j - 1];
        ||| (seen.contains(v) || a.contains(v)) && visits_successors(
            adj,
            seen,
            u,
            (j - 1) as nat,
            a,
        )
        ||| exists|k: int|
            0 <= k < a.len() && !seen.contains(v) && !a.take(k).contains(v)
                && visits_successors(adj, seen, u, (j - 1) as nat, #[trigger] a.take(k)) && visits(
                adj,
                seen.union(a.take(k).to_set()),
                v,
                a.skip(k),
            )
    }
}

/// Searching from one more successor.
pub proof fn lemma_visits_next(
    adj: Seq<Vec<usize>>,
    seen: Set<usize>,
    u: usize,
    j: nat,
    a: Seq<usize>,
    b: Seq<usize>,
)
    requires
        visits_successors(adj, seen, u, j, a),
        !seen.contains(adj[u as int]@[j as int]),
        !a.contains(adj[u as int]@[j as int]),
        visits(adj, seen.union(a.to_set()), adj[u as int]@[j as int], b),
    ensures
        visits_successors(adj, seen, u, j + 1, a + b),
{
    let c = a + b;
    let k = a.len() as int;
    assert(c.take(k) =~= a);
    assert(c.skip(k) =~= b);
    assert(visits_successors(adj, seen, u, j, c.take(k)));
}

/// A depth-first search adds nodes in one order only.
pub proof fn law_visits_in_one_order(
    adj: Seq<Vec<usize>>,
    seen: Set<usize>,
    u: usize,
    a: Seq<usize>,
    b: Seq<usize>,
)
    requires
        visits(adj, seen, u, a),
        visits(adj, seen, u, b),
    ensures
        a == b,
    decreases a.len(), 0nat,
{
    lemma_visits_successors_in_one_order(
        adj,
        seen.insert(u),
        u,
        adj[u as int]@.len(),
        a.drop_last(),
        b.drop_last(),
    );
    assert(a =~= a.drop_last().push(u));
    assert(b =~= b.drop_last().push(u));
}

/// From the successors of a node, too, it adds nodes in one order only.
proof fn lemma_visits_successors_in_one_order(
    adj: Seq<Vec<usize>>,
    seen: Set<usize>,
    u: usize,
    j: nat,
    a: Seq<usize>,
    b: Seq<usize>,
)
    requires
        visits_successors(adj, seen, u, j, a),
        visits_successors(adj, seen, u, j, b),
    ensures
        a == b,
    decreases a.len(), j + 1,
{
    if j == 0 {
        assert(a =~= b);
    } else {
        let i = (j - 1) as nat;
        let v = adj[u as int]@[i as int];
        let passes_a = (seen.contains(v) || a.contains(v)) && visits_successors(
            adj,
            seen,
            u,
            i,
            a,
        );
        let passes_b = (seen.contains(v) || b.contains(v)) && visits_successors(
            adj,
            seen,
            u,
            i,
            b,
        );
        if passes_a && passes_b {
            lemma_visits_successors_in_one_order(adj, seen, u, i, a, b);
        } else if passes_a {
            let l = choose|l: int|
                0 <= l < b.len() && !seen.contains(v) && !b.take(l).contains(v)
                    && visits_successors(adj, seen, u, i, #[trigger] b.take(l)) && visits(
                    adj,
                    seen.union(b.take(l).to_set()),
                    v,
                    b.skip(l),
                );
            lemma_visits_successors_in_one_order(adj, seen, u, i, a, b.take(l));
        } else {
            let k = choose|k: int|
                0 <= k < a.len() && !seen.contains(v) && !a.take(k).contains(v)
                    && visits_successors(adj, seen, u, i, #[trigger] a.take(k)) && visits(
                    adj,
                    seen.union(a.take(k).to_set()),
                    v,
                    a.skip(k),
                );
            if passes_b {
                lemma_visits_successors_in_one_order(adj, seen, u, i, a.take(k), b);
            } else {
                let l = choose|l: int|
                    0 <= l < b.len() && !seen.contains(v) && !b.take(l).contains(v)
                        && visits_successors(adj, seen, u, i, #[trigger] b.take(l)) && visits(
                        adj,
                        seen.union(b.take(l).to_set()),
                        v,
                        b.skip(l),
                    );
                lemma_visits_successors_in_one_order(adj, seen, u, i, a.take(k), b.take(l));
                law_visits_in_one_order(
                    adj,
                    seen.union(a.take(k).to_set()),
                    v,
                    a.skip(k),
                    b.skip(l),
                );
                assert(a =~= a.take(k) + a.skip(k));
                assert(b =~= b.take(l) + b.skip(l));
            }
        }
    }
}

} // verus!
