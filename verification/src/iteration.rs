//! Why repeated passes over a graph arrive at its dominators.
//!
//! The passes keep two facts about the parent pointers. No dominator is ever lost: a node
//! that lies on all walks to `x` also lies on all walks to the parent of `x`. And after
//! `k` passes a parent lies on all walks that run against the node order fewer than `k`
//! times, so that enough passes leave nothing but dominators.

use crate::dominance::RootedGraph;
use crate::forest::Forest;
use vstd::prelude::*;

verus! {

/// The number of steps of `p` that do not lead forward in `order`.
pub open spec fn retreats(order: Seq<usize>, p: Seq<usize>) -> nat
    decreases p.len(),
{
    if p.len() <= 1 {
        0
    } else {
        retreats(order, p.drop_last()) + if order.index_of(p[p.len() - 2]) >= order.index_of(
            p.last(),
        ) {
            1nat
        } else {
            0
        }
    }
}

/// Every walk to `n` with at most `k` retreats goes through `z`.
pub open spec fn near(
    g: RootedGraph<usize>,
    order: Seq<usize>,
    k: int,
    z: usize,
    n: usize,
) -> bool {
    forall|p: Seq<usize>| #[trigger]
        g.walk_to(p, n) && retreats(order, p) <= k ==> p.contains(z)
}

/// A predecessor of `x` comes before `x` in `order`.
pub open spec fn follows_predecessor(
    g: RootedGraph<usize>,
    order: Seq<usize>,
    x: usize,
) -> bool {
    exists|p: usize| #[trigger]
        order.contains(p) && g.edges.contains((p, x)) && order.index_of(p) < order.index_of(x)
}

/// `order` lists the nodes that the root of `g` reaches, the root first, and every other node
/// after at least one of its predecessors.
pub open spec fn is_flow_order(g: RootedGraph<usize>, order: Seq<usize>) -> bool {
    &&& order.no_duplicates()
    &&& order.len() > 0
    &&& order[0] == g.root
    &&& forall|x: usize| #[trigger] order.contains(x) <==> g.reachable(x)
    &&& forall|x: usize| #[trigger]
        order.contains(x) && x != g.root ==> follows_predecessor(g, order, x)
}

/// Every edge out of a node of `order` leads forward, or closes a cycle.
pub open spec fn backward_edges_close_cycles(g: RootedGraph<usize>, order: Seq<usize>) -> bool {
    forall|x: usize, y: usize| #[trigger]
        g.edges.contains((x, y)) && order.contains(x) ==> order.index_of(x) < order.index_of(y)
            || g.rooted_at(y).reachable(x)
}

/// Every edge out of a node of `order` leads forward.
pub open spec fn leads_forward(g: RootedGraph<usize>, order: Seq<usize>) -> bool {
    forall|x: usize, y: usize| #[trigger]
        g.edges.contains((x, y)) && order.contains(x) ==> order.index_of(x) < order.index_of(y)
}

/// `k` complete passes are enough: more than there are nodes, or one if all edges lead forward.
pub open spec fn enough_passes(g: RootedGraph<usize>, order: Seq<usize>, k: int) -> bool {
    k > order.len() || k >= 1 && leads_forward(g, order)
}

/// A node on all walks to `x`, other than `x`, is on all walks to the parent of `x`.
pub open spec fn keeps_dominators(g: RootedGraph<usize>, f: Forest) -> bool {
    forall|z: usize, x: usize| #[trigger]
        g.on_all_walks(z, x) && f.known(x) && x != g.root && z != x ==> g.on_all_walks(
            z,
            f.parent[x as int]->0,
        )
}

/// The parents of the first `i` nodes lie on all walks with at most `k` retreats, those of
/// the other nodes on all walks with fewer.
pub open spec fn narrowed(g: RootedGraph<usize>, f: Forest, i: int, k: int) -> bool {
    forall|x: usize| #[trigger]
        f.known(x) && x != g.root ==> near(
            g,
            f.order,
            if f.pos(x) < i {
                k
            } else {
                k - 1
            },
            f.parent[x as int]->0,
            x,
        )
}

/// `c` is the lowest common ancestor of the known predecessors of `u`.
pub open spec fn is_meet(g: RootedGraph<usize>, f: Forest, u: usize, c: usize) -> bool {
    &&& forall|p: usize| #[trigger]
        g.edges.contains((p, u)) && f.known(p) ==> f.ancestor(c, p)
    &&& forall|z: usize|
        (forall|p: usize| #[trigger]
            g.edges.contains((p, u)) && f.known(p) ==> f.ancestor(z, p)) ==> #[trigger] f.ancestor(
            z,
            c,
        )
}

/// The parents of the first `i` nodes, the root aside, are what a step of a pass would make them.
pub open spec fn settled(g: RootedGraph<usize>, f: Forest, i: int) -> bool {
    forall|j: int|
        0 <= j < i && f.order[j] != g.root ==> is_meet(
            g,
            f,
            #[trigger] f.order[j],
            f.parent[f.order[j] as int]->0,
        )
}

/// What holds between two steps of a pass: `i` nodes are done in this pass, which follows
/// `k` complete ones.
pub open spec fn in_pass(g: RootedGraph<usize>, f: Forest, i: int, k: int) -> bool {
    &&& is_flow_order(g, f.order)
    &&& f.wf(g.root)
    &&& keeps_dominators(g, f)
    &&& narrowed(g, f, i, k)
    &&& 0 <= i <= f.order.len()
    &&& k >= 0
    &&& forall|j: int| 0 <= j < i ==> f.known(#[trigger] f.order[j])
    &&& k >= 1 ==> forall|x: usize| #[trigger] f.order.contains(x) ==> f.known(x)
}

/// A prefix of a walk retreats no more often than the walk.
proof fn lemma_retreats_take(order: Seq<usize>, p: Seq<usize>, k: int)
    requires
        0 <= k <= p.len(),
    ensures
        retreats(order, p.take(k)) <= retreats(order, p),
    decreases p.len(),
{
    if k == p.len() {
        assert(p.take(k) =~= p);
    } else {
        assert(p.drop_last().take(k) =~= p.take(k));
        lemma_retreats_take(order, p.drop_last(), k);
    }
}

/// A walk retreats no more often than it is long.
proof fn lemma_retreats_bound(order: Seq<usize>, p: Seq<usize>)
    ensures
        retreats(order, p) <= p.len(),
    decreases p.len(),
{
    if p.len() > 1 {
        lemma_retreats_bound(order, p.drop_last());
    }
}

/// What lies on all walks to `b` that retreat seldom lies on those to `c` if `b` does.
proof fn lemma_near_transitive(
    g: RootedGraph<usize>,
    order: Seq<usize>,
    k: int,
    a: usize,
    b: usize,
    c: usize,
)
    requires
        near(g, order, k, a, b),
        near(g, order, k, b, c),
    ensures
        near(g, order, k, a, c),
{
    assert forall|p: Seq<usize>| #[trigger]
        g.walk_to(p, c) && retreats(order, p) <= k implies p.contains(a) by {
        let i = p.index_of(b);
        g.lemma_walk_take(p, c, i + 1);
        lemma_retreats_take(order, p, i + 1);
        let q = p.take(i + 1);
        assert(g.walk_to(q, b));
        let j = q.index_of(a);
        assert(p[j] == a);
    }
}

/// The bound that holds for the parent of a node holds for all its ancestors.
proof fn lemma_ancestor_near(
    g: RootedGraph<usize>,
    f: Forest,
    i: int,
    k: int,
    z: usize,
    x: usize,
)
    requires
        f.wf(g.root),
        narrowed(g, f, i, k),
        f.known(x),
        f.ancestor(z, x),
    ensures
        near(
            g,
            f.order,
            if f.pos(x) < i {
                k
            } else {
                k - 1
            },
            z,
            x,
        ),
    decreases f.pos(x),
{
    let b = if f.pos(x) < i {
        k
    } else {
        k - 1
    };
    if z == x {
        assert forall|p: Seq<usize>| #[trigger]
            g.walk_to(p, x) && retreats(f.order, p) <= b implies p.contains(x) by {
            assert(p[p.len() - 1] == x);
        }
    } else {
        f.lemma_ancestor_of_root(g.root, z);
        f.lemma_pos(x);
        let y = f.parent[x as int]->0;
        f.lemma_parent(g.root, x);
        lemma_ancestor_near(g, f, i, k, z, y);
        assert(near(g, f.order, b, z, y));
        lemma_near_transitive(g, f.order, b, z, y, x);
    }
}

/// Every node on all walks to a known node is one of its ancestors.
pub proof fn lemma_dominator_is_ancestor(g: RootedGraph<usize>, f: Forest, z: usize, x: usize)
    requires
        f.wf(g.root),
        keeps_dominators(g, f),
        f.known(x),
        g.on_all_walks(z, x),
    ensures
        f.ancestor(z, x),
    decreases f.pos(x),
{
    if z != x {
        g.lemma_root_reachable();
        if x == g.root {
            assert(seq![g.root].contains(z));
        }
        f.lemma_pos(x);
        f.lemma_parent(g.root, x);
        lemma_dominator_is_ancestor(g, f, z, f.parent[x as int]->0);
    }
}

/// A dominator of `p` that is an ancestor of the ancestor `c` of `p` dominates `c` as well.
proof fn lemma_dominator_of_ancestor(
    g: RootedGraph<usize>,
    f: Forest,
    z: usize,
    c: usize,
    p: usize,
)
    requires
        f.wf(g.root),
        keeps_dominators(g, f),
        f.known(p),
        g.on_all_walks(z, p),
        f.ancestor(c, p),
        f.ancestor(z, c),
    ensures
        g.on_all_walks(z, c),
    decreases f.pos(p),
{
    if c != p {
        f.lemma_ancestor_of_root(g.root, c);
        f.lemma_pos(p);
        f.lemma_parent(g.root, p);
        f.lemma_ancestor_pos(g.root, c, p);
        f.lemma_ancestor_pos(g.root, z, c);
        lemma_dominator_of_ancestor(g, f, z, c, f.parent[p as int]->0);
    }
}

/// A node other than `u` on all walks to `u` is on all walks to each predecessor of `u`.
proof fn lemma_dominator_of_predecessor(g: RootedGraph<usize>, z: usize, p: usize, u: usize)
    requires
        g.on_all_walks(z, u),
        z != u,
        g.edges.contains((p, u)),
    ensures
        g.on_all_walks(z, p),
{
    assert forall|q: Seq<usize>| #[trigger] g.walk_to(q, p) implies q.contains(z) by {
        g.lemma_walk_push(q, p, u);
        let r = q.push(u);
        let i = r.index_of(z);
        assert(q[i] == z);
    }
}

/// A walk to a node other than the root arrives from a reachable predecessor.
proof fn lemma_last_step(g: RootedGraph<usize>, p: Seq<usize>, u: usize) -> (m: usize)
    requires
        g.walk_to(p, u),
        u != g.root,
    ensures
        p.len() >= 2,
        m == p[p.len() - 2],
        g.walk_to(p.drop_last(), m),
        g.edges.contains((m, u)),
        g.reachable(m),
{
    let m = p[p.len() - 2];
    g.lemma_walk_take(p, u, p.len() - 1);
    assert(p.take(p.len() - 1) =~= p.drop_last());
    assert(g.step(p, p.len() - 2));
    m
}

/// The meet of the predecessors of the next node of a pass comes before that node.
pub proof fn lemma_meet_comes_before(
    g: RootedGraph<usize>,
    f: Forest,
    i: int,
    k: int,
    u: usize,
    c: usize,
)
    requires
        in_pass(g, f, i, k),
        i < f.order.len(),
        u == f.order[i],
        u != g.root,
        is_meet(g, f, u, c),
    ensures
        f.known(c),
        f.pos(c) < f.pos(u),
        f.pos(u) == i,
{
    f.lemma_pos_of(i);
    assert(follows_predecessor(g, f.order, u));
    let p = choose|p: usize| #[trigger]
        f.order.contains(p) && g.edges.contains((p, u)) && f.order.index_of(p)
            < f.order.index_of(u);
    f.lemma_pos(p);
    assert(f.known(f.order[f.pos(p)]));
    f.lemma_ancestor_pos(g.root, c, p);
}

/// Pointing the next node of a pass at the meet of its predecessors keeps what holds in a
/// pass.
pub proof fn lemma_set_parent(
    g: RootedGraph<usize>,
    f: Forest,
    i: int,
    k: int,
    u: usize,
    c: usize,
) -> (f2: Forest)
    requires
        in_pass(g, f, i, k),
        i < f.order.len(),
        u == f.order[i],
        u != g.root,
        is_meet(g, f, u, c),
    ensures
        f2.order == f.order,
        f2.parent == f.parent.update(u as int, Some(c)),
        in_pass(g, f2, i + 1, k),
{
    lemma_meet_comes_before(g, f, i, k, u, c);
    let f2 = Forest { order: f.order, parent: f.parent.update(u as int, Some(c)) };
    assert forall|x: usize| #[trigger] f2.known(x) implies f2.order.contains(x) by {
        assert(x != u ==> f.known(x));
    }
    assert forall|x: usize| #[trigger] f2.known(x) && x != g.root implies f2.known(
        f2.parent[x as int]->0,
    ) && f2.pos(f2.parent[x as int]->0) < f2.pos(x) by {
        if x != u {
            assert(f.known(x));
            assert(f.known(f.parent[x as int]->0));
        }
    }
    assert(f2.wf(g.root));
    assert forall|z: usize, x: usize| #[trigger]
        g.on_all_walks(z, x) && f2.known(x) && x != g.root && z != x implies g.on_all_walks(
        z,
        f2.parent[x as int]->0,
    ) by {
        if x != u {
            assert(f.known(x));
        } else {
            assert forall|p: usize| #[trigger]
                g.edges.contains((p, u)) && f.known(p) implies f.ancestor(z, p) by {
                lemma_dominator_of_predecessor(g, z, p, u);
                lemma_dominator_is_ancestor(g, f, z, p);
            }
            assert(f.ancestor(z, c));
            assert(f.order.contains(u));
            assert(follows_predecessor(g, f.order, u));
            let p = choose|p: usize| #[trigger]
                f.order.contains(p) && g.edges.contains((p, u)) && f.order.index_of(p)
                    < f.order.index_of(u);
            f.lemma_pos(p);
            assert(f.known(f.order[f.pos(p)]));
            lemma_dominator_of_predecessor(g, z, p, u);
            lemma_dominator_of_ancestor(g, f, z, c, p);
        }
    }
    assert forall|x: usize| #[trigger] f2.known(x) && x != g.root implies near(
        g,
        f2.order,
        if f2.pos(x) < i + 1 {
            k
        } else {
            k - 1
        },
        f2.parent[x as int]->0,
        x,
    ) by {
        if x != u {
            assert(f.known(x));
            assert(f2.pos(x) == f.pos(x));
            if f.pos(x) == i {
                f.lemma_pos_injective(x, u);
            }
        } else {
            assert forall|p: Seq<usize>| #[trigger]
                g.walk_to(p, u) && retreats(f.order, p) <= k implies p.contains(c) by {
                let m = lemma_last_step(g, p, u);
                assert(f.order.contains(m));
                f.lemma_pos(m);
                if f.pos(m) < i {
                    assert(f.known(f.order[f.pos(m)]));
                }
                assert(f.known(m));
                lemma_ancestor_near(g, f, i, k, c, m);
                assert(p.drop_last().contains(c));
                let j = p.drop_last().index_of(c);
                assert(p[j] == c);
            }
        }
    }
    assert forall|j: int| 0 <= j < i + 1 implies f2.known(#[trigger] f2.order[j]) by {
        if j < i {
            assert(f.known(f.order[j]));
        }
    }
    if k >= 1 {
        assert forall|x: usize| #[trigger] f2.order.contains(x) implies f2.known(x) by {
            assert(f.known(x));
        }
    }
    f2
}

/// A step of a pass that passes over the root changes nothing.
pub proof fn lemma_skip_root(g: RootedGraph<usize>, f: Forest, i: int, k: int)
    requires
        in_pass(g, f, i, k),
        i < f.order.len(),
        f.order[i] == g.root,
    ensures
        in_pass(g, f, i + 1, k),
{
    f.lemma_pos_of(i);
    f.lemma_ancestor_of_root(g.root, g.root);
    assert forall|j: int| 0 <= j < i + 1 implies f.known(#[trigger] f.order[j]) by {
        if j < i {
            assert(f.known(f.order[j]));
        }
    }
}

/// A complete pass is the start of the next.
pub proof fn lemma_next_pass(g: RootedGraph<usize>, f: Forest, k: int)
    requires
        in_pass(g, f, f.order.len() as int, k),
    ensures
        in_pass(g, f, 0, k + 1),
        forall|x: usize| #[trigger] f.order.contains(x) ==> f.known(x),
{
    assert forall|x: usize| #[trigger] f.order.contains(x) implies f.known(x) by {
        assert(f.known(f.order[f.pos(x)]));
    }
    assert forall|x: usize| #[trigger] f.known(x) && x != g.root implies near(
        g,
        f.order,
        if f.pos(x) < 0 {
            k + 1
        } else {
            k
        },
        f.parent[x as int]->0,
        x,
    ) by {
        f.lemma_pos(x);
    }
}

/// Before the first pass only the root is known.
pub proof fn lemma_first_pass(g: RootedGraph<usize>, f: Forest)
    requires
        is_flow_order(g, f.order),
        forall|i: int| 0 <= i < f.order.len() ==> (#[trigger] f.order[i]) < f.parent.len(),
        g.root < f.parent.len(),
        f.parent[g.root as int] == Some(g.root),
        forall|x: int| 0 <= x < f.parent.len() && x != g.root ==> f.parent[x] is None,
    ensures
        in_pass(g, f, 0, 0),
{
    f.lemma_pos_of(0);
}

/// If all edges lead forward, no walk retreats.
proof fn lemma_no_retreats(g: RootedGraph<usize>, order: Seq<usize>, p: Seq<usize>, n: usize)
    requires
        is_flow_order(g, order),
        leads_forward(g, order),
        g.walk_to(p, n),
    ensures
        retreats(order, p) == 0,
    decreases p.len(),
{
    if p.len() > 1 {
        let m = p[p.len() - 2];
        g.lemma_walk_take(p, n, p.len() - 1);
        assert(p.take(p.len() - 1) =~= p.drop_last());
        lemma_no_retreats(g, order, p.drop_last(), m);
        assert(g.step(p, p.len() - 2));
        assert(p.drop_last().contains(m)) by {
            assert(p.drop_last()[p.len() - 2] == m);
        }
        g.lemma_on_walk_reachable(p.drop_last(), m, m);
        assert(order.contains(m));
    }
}

/// Walks with no more retreats than there are reachable nodes are as good as all, and so are walks
/// without retreats if all edges lead forward.
proof fn lemma_near_is_enough(
    g: RootedGraph<usize>,
    order: Seq<usize>,
    k: int,
    z: usize,
    n: usize,
)
    requires
        is_flow_order(g, order),
        near(g, order, k, z, n),
        k >= order.len() || k >= 0 && leads_forward(g, order),
    ensures
        g.on_all_walks(z, n),
{
    assert forall|p: Seq<usize>| #[trigger] g.walk_to(p, n) implies p.contains(z) by {
        if leads_forward(g, order) {
            lemma_no_retreats(g, order, p, n);
        }
        let q = g.lemma_simple_walk(p, n);
        assert(q.to_set().subset_of(order.to_set())) by {
            assert forall|x: usize| q.to_set().contains(x) implies order.to_set().contains(x) by {
                g.lemma_on_walk_reachable(q, n, x);
                assert(order.contains(x));
            }
        }
        q.unique_seq_to_set();
        order.unique_seq_to_set();
        vstd::set_lib::lemma_len_subset(q.to_set(), order.to_set());
        lemma_retreats_bound(order, q);
    }
}

/// After enough complete passes no step changes a parent any more.
pub proof fn lemma_settled(
    g: RootedGraph<usize>,
    f: Forest,
    i: int,
    k: int,
    u: usize,
    c: usize,
)
    requires
        in_pass(g, f, i, k),
        i < f.order.len(),
        u == f.order[i],
        u != g.root,
        is_meet(g, f, u, c),
        enough_passes(g, f.order, k),
    ensures
        f.parent[u as int] == Some(c),
{
    lemma_meet_comes_before(g, f, i, k, u, c);
    assert(f.order.contains(u));
    let d = f.parent[u as int]->0;
    f.lemma_parent(g.root, u);
    assert forall|z: usize, x: usize| #[trigger]
        f.ancestor(z, x) && f.known(x) implies g.on_all_walks(z, x) by {
        lemma_ancestor_near(g, f, i, k, z, x);
        lemma_near_is_enough(
            g,
            f.order,
            if f.pos(x) < i {
                k
            } else {
                k - 1
            },
            z,
            x,
        );
    }
    assert forall|p: Seq<usize>| #[trigger] g.walk_to(p, u) implies p.contains(c) by {
        let m = lemma_last_step(g, p, u);
        assert(f.order.contains(m));
        assert(f.ancestor(c, m));
        let j = p.drop_last().index_of(c);
        assert(p[j] == c);
    }
    lemma_dominator_is_ancestor(g, f, c, u);
    f.lemma_ancestor_pos(g.root, c, d);
    assert(f.ancestor(d, u));
    assert forall|p: usize| #[trigger]
        g.edges.contains((p, u)) && f.known(p) implies f.ancestor(d, p) by {
        lemma_dominator_of_predecessor(g, d, p, u);
        lemma_dominator_is_ancestor(g, f, d, p);
    }
    assert(f.ancestor(d, c));
    f.lemma_ancestor_pos(g.root, d, c);
    f.lemma_pos_injective(c, d);
}

/// If every parent is an ancestor of all predecessors, ancestors lie on all walks.
pub proof fn lemma_ancestor_on_walk(
    g: RootedGraph<usize>,
    f: Forest,
    z: usize,
    x: usize,
    p: Seq<usize>,
)
    requires
        is_flow_order(g, f.order),
        f.wf(g.root),
        forall|y: usize| #[trigger] f.order.contains(y) ==> f.known(y),
        forall|m: usize, y: usize| #[trigger]
            g.edges.contains((m, y)) && f.known(m) && f.known(y) && y != g.root ==> f.ancestor(
                f.parent[y as int]->0,
                m,
            ),
        g.walk_to(p, x),
        f.ancestor(z, x),
    ensures
        p.contains(z),
    decreases p.len(),
{
    if z == x {
        assert(p[p.len() - 1] == x);
    } else {
        assert(g.reachable(x));
        assert(f.order.contains(x));
        f.lemma_ancestor_of_root(g.root, z);
        let m = lemma_last_step(g, p, x);
        assert(f.order.contains(m));
        let y = f.parent[x as int]->0;
        f.lemma_parent(g.root, x);
        f.lemma_ancestor_transitive(g.root, z, y, m);
        lemma_ancestor_on_walk(g, f, z, m, p.drop_last());
        let j = p.drop_last().index_of(z);
        assert(p[j] == z);
    }
}

/// Parent pointers that no step of a pass changes describe dominance: a node is the root or
/// an ancestor of `x` just if it dominates `x`.
pub proof fn lemma_fixpoint(g: RootedGraph<usize>, f: Forest, z: usize, x: usize)
    requires
        is_flow_order(g, f.order),
        f.wf(g.root),
        keeps_dominators(g, f),
        forall|y: usize| #[trigger] f.order.contains(y) ==> f.known(y),
        forall|m: usize, y: usize| #[trigger]
            g.edges.contains((m, y)) && f.known(m) && f.known(y) && y != g.root ==> f.ancestor(
                f.parent[y as int]->0,
                m,
            ),
    ensures
        f.above(g.root, z, x) <==> g.dominates(z, x),
{
    if g.reachable(x) {
        assert(f.order.contains(x));
        f.lemma_root_is_ancestor(g.root, x);
        if f.ancestor(z, x) {
            assert forall|p: Seq<usize>| #[trigger] g.walk_to(p, x) implies p.contains(z) by {
                lemma_ancestor_on_walk(g, f, z, x, p);
            }
        }
        if g.on_all_walks(z, x) {
            lemma_dominator_is_ancestor(g, f, z, x);
        }
    } else {
        assert(!f.known(x));
        f.lemma_unknown(z, x);
    }
}

/// After a complete pass that changed nothing the parents describe dominance.
pub proof fn lemma_nothing_changed(g: RootedGraph<usize>, f: Forest, k: int)
    requires
        in_pass(g, f, f.order.len() as int, k),
        settled(g, f, f.order.len() as int),
    ensures
        forall|z: usize, x: usize| #[trigger] f.above(g.root, z, x) <==> g.dominates(z, x),
{
    lemma_next_pass(g, f, k);
    assert forall|m: usize, y: usize| #[trigger]
        g.edges.contains((m, y)) && f.known(m) && f.known(y) && y != g.root implies f.ancestor(
        f.parent[y as int]->0,
        m,
    ) by {
        f.lemma_pos(y);
        assert(is_meet(g, f, f.order[f.pos(y)], f.parent[y as int]->0));
    }
    assert forall|z: usize, x: usize| #[trigger] f.above(g.root, z, x) <==> g.dominates(
        z,
        x,
    ) by {
        lemma_fixpoint(g, f, z, x);
    }
}

} // verus!
