//! Laws of simple directed graphs.

use crate::graph;
use crate::graph::GraphView;
use crate::graph::SimpleDirectedGraph;
use crate::keys;
use crate::order;
use crate::ordered::OrderedMap;
use crate::ordered::OrderedSet;
use crate::sequences;
use std::hash::Hash;
use vstd::prelude::*;
use vstd::std_specs::cmp::PartialEqSpec;

verus! {

/// The edges of a graph are exactly those that are listed.
pub proof fn law_edges_are_listed<N>(g: GraphView<N>, a: N, b: N)
    requires
        g.canonical(),
    ensures
        g.edges().contains((a, b)) <==> g.has_edge(a, b),
{
    let part = |p: N| g.edges_from(p);
    sequences::lemma_flat_contains(g.nodes, part, (a, b));
    if g.has_edge(a, b) {
        assert(g.children.contains_key(a));
        assert(part(a)[g.children[a].index_of(b)] == (a, b));
        assert(part(a).contains((a, b)));
    }
    if g.edges().contains((a, b)) {
        let p = choose|p: N| g.nodes.contains(p) && #[trigger] part(p).contains((a, b));
        let k = part(p).index_of((a, b));
        assert(g.children.contains_key(p));
        assert(g.children[p][k] == b);
    }
}

/// The edges out of the first `i` nodes.
spec fn first_edges<N>(g: GraphView<N>, i: int) -> Seq<(N, N)> {
    g.nodes.take(i).flat_map(|p: N| g.edges_from(p))
}

/// The edges out of the first `i` nodes are all different, and start at those nodes.
proof fn lemma_first_edges<N>(g: GraphView<N>, i: int)
    requires
        g.canonical(),
        0 <= i <= g.nodes.len(),
    ensures
        first_edges(g, i).no_duplicates(),
        forall|e: (N, N)| #[trigger]
            first_edges(g, i).contains(e) ==> g.nodes.take(i).contains(e.0),
    decreases i,
{
    let part = |p: N| g.edges_from(p);
    let edges = first_edges(g, i);
    if i == 0 {
        assert(edges =~= Seq::<(N, N)>::empty());
    } else {
        let before = g.nodes.take(i - 1);
        let p = g.nodes[i - 1];
        lemma_first_edges(g, i - 1);
        g.nodes.lemma_flat_map_take_append(part, i - 1);
        assert(g.nodes.take(i) =~= before.push(p));
        assert(g.children.contains_key(p));
        let a = first_edges(g, i - 1);
        let b = part(p);
        assert(edges == a + b);
        assert forall|e: (N, N)| #[trigger] edges.contains(e) implies g.nodes.take(i).contains(
            e.0,
        ) by {
            sequences::lemma_contains_add(a, b, e);
            sequences::lemma_contains_push(before, p, e.0);
        }
        assert(!before.contains(p)) by {
            if before.contains(p) {
                assert(g.nodes[before.index_of(p)] == p);
            }
        }
        assert forall|j: int, k: int|
            0 <= j < edges.len() && 0 <= k < edges.len() && j != k implies edges[j] != edges[k] by {
            if j < a.len() && k >= a.len() {
                assert(a.contains(edges[j]));
                assert(edges[k].0 == p);
            }
            if k < a.len() && j >= a.len() {
                assert(a.contains(edges[k]));
                assert(edges[j].0 == p);
            }
        }
    }
}

/// No edge is listed twice.
pub proof fn law_no_edge_is_listed_twice<N>(g: GraphView<N>)
    requires
        g.canonical(),
    ensures
        g.edges().no_duplicates(),
{
    lemma_first_edges(g, g.nodes.len() as int);
    assert(g.nodes.take(g.nodes.len() as int) =~= g.nodes);
}

/// Completing a graph keeps its edges and the order of its nodes. The nodes that are added are
/// children.
pub proof fn law_completing_keeps_order<N>(g: GraphView<N>)
    requires
        g.nodes.no_duplicates(),
        forall|n: N| #[trigger] g.children.contains_key(n) <==> g.nodes.contains(n),
        forall|n: N| #[trigger] g.children.contains_key(n) ==> g.children[n].no_duplicates(),
    ensures
        g.completed().canonical(),
        g.nodes.is_prefix_of(g.completed().nodes),
        forall|n: N| #[trigger]
            g.children.contains_key(n) ==> g.completed().children[n] == g.children[n],
        forall|a: N, b: N| #[trigger] g.completed().has_edge(a, b) <==> g.has_edge(a, b),
        forall|n: N| #[trigger]
            g.completed().nodes.contains(n) <==> g.nodes.contains(n) || exists|p: N| #[trigger]
                g.has_edge(p, n),
{
    graph::lemma_completed_canonical(g);
    let listed = g.nodes.flat_map(|n: N| g.children[n]);
    sequences::lemma_distinct_of_distinct(g.nodes);
    sequences::lemma_distinct_prefix(g.nodes, listed);
    assert forall|n: N| #[trigger] g.children.contains_key(n) implies g.completed().children[n]
        == g.children[n] by {
        assert(g.completed().nodes.contains(n));
    }
}

/// The graph of a list of edges has exactly the listed edges, and exactly their ends as nodes. It
/// keeps the order of the list: the nodes with edges come in the order in which the list names
/// them, and so do the children of each node.
pub proof fn law_edge_list<N>(edges: Seq<(N, N)>)
    ensures
        graph::of_edges(edges).canonical(),
        ({
            let parents = sequences::distinct(edges.map_values(|e: (N, N)| e.0));
            parents.is_prefix_of(graph::of_edges(edges).nodes)
        }),
        forall|n: N| #[trigger]
            graph::of_edges(edges).nodes.contains(n) ==> graph::of_edges(edges).children[n]
                == sequences::distinct(sequences::ends_of(edges, n)),
        forall|a: N, b: N| #[trigger]
            graph::of_edges(edges).has_edge(a, b) <==> edges.contains((a, b)),
        forall|n: N| #[trigger]
            graph::of_edges(edges).nodes.contains(n) <==> exists|e: (N, N)| #[trigger]
                edges.contains(e) && (n == e.0 || n == e.1),
{
    let first = |e: (N, N)| e.0;
    let both = |e: (N, N)| seq![e.0, e.1];
    let heads = edges.map_values(first);
    let listed = edges.flat_map(both);
    let all = heads + listed;
    assert forall|n: N| #[trigger] all.contains(n) <==> exists|e: (N, N)| #[trigger]
        edges.contains(e) && (n == e.0 || n == e.1) by {
        sequences::lemma_contains_add(heads, listed, n);
        sequences::lemma_flat_contains(edges, both, n);
        if heads.contains(n) {
            let e = edges[heads.index_of(n)];
            assert(edges.contains(e) && n == e.0);
        }
        if listed.contains(n) {
            let e = choose|e: (N, N)| edges.contains(e) && #[trigger] both(e).contains(n);
            let k = both(e).index_of(n);
            assert(edges.contains(e) && (n == e.0 || n == e.1));
        }
        if exists|e: (N, N)| #[trigger] edges.contains(e) && (n == e.0 || n == e.1) {
            let e = choose|e: (N, N)| #[trigger] edges.contains(e) && (n == e.0 || n == e.1);
            assert(both(e)[0] == e.0 && both(e)[1] == e.1);
            assert(both(e).contains(n));
        }
    }
    assert forall|i: int| 0 <= i < edges.len() implies all.contains((#[trigger] edges[i]).1) by {
        assert(edges.contains(edges[i]));
    }
    graph::lemma_gathered_canonical(all, edges);
    graph::lemma_gathered_edges(all, edges);
    sequences::lemma_distinct_prefix(heads, listed);
    assert forall|a: N, b: N| #[trigger] edges.contains((a, b)) implies all.contains(a) by {
        let e = (a, b);
        assert(edges.contains(e) && a == e.0);
    }
}

/// The graph of an adjacency list has exactly the listed edges, and exactly the listed nodes. It
/// keeps the order of the list: the nodes with lists come in the order in which the list names
/// them, and so do the children of each node.
pub proof fn law_adjacency_list<N>(lists: Seq<(N, Vec<N>)>)
    ensures
        graph::of_lists(lists).canonical(),
        sequences::distinct(graph::listed_heads(lists)).is_prefix_of(
            graph::of_lists(lists).nodes,
        ),
        forall|n: N| #[trigger]
            graph::of_lists(lists).nodes.contains(n) ==> graph::of_lists(lists).children[n]
                == sequences::distinct(sequences::ends_of(graph::listed_edges(lists), n)),
        forall|a: N, b: N| #[trigger]
            graph::of_lists(lists).has_edge(a, b) <==> exists|l: (N, Vec<N>)| #[trigger]
                lists.contains(l) && l.0 == a && l.1@.contains(b),
        forall|n: N| #[trigger]
            graph::of_lists(lists).nodes.contains(n) <==> exists|l: (N, Vec<N>)| #[trigger]
                lists.contains(l) && (l.0 == n || l.1@.contains(n)),
{
    let both = |l: (N, Vec<N>)| seq![l.0] + l.1@;
    let part = |l: (N, Vec<N>)| l.1@.map_values(|child: N| (l.0, child));
    let heads = graph::listed_heads(lists);
    let listed = graph::listed_nodes(lists);
    let pairs = graph::listed_edges(lists);
    let all = heads + listed;
    graph::lemma_lists_known(lists);
    assert forall|n: N| #[trigger] all.contains(n) <==> exists|l: (N, Vec<N>)| #[trigger]
        lists.contains(l) && (l.0 == n || l.1@.contains(n)) by {
        sequences::lemma_contains_add(heads, listed, n);
        sequences::lemma_flat_contains(lists, both, n);
        if listed.contains(n) {
            let l = choose|l: (N, Vec<N>)| lists.contains(l) && #[trigger] both(l).contains(n);
            sequences::lemma_contains_add(seq![l.0], l.1@, n);
            assert(lists.contains(l) && (l.0 == n || l.1@.contains(n)));
        }
        if exists|l: (N, Vec<N>)| #[trigger] lists.contains(l) && (l.0 == n || l.1@.contains(n)) {
            let l = choose|l: (N, Vec<N>)| #[trigger]
                lists.contains(l) && (l.0 == n || l.1@.contains(n));
            sequences::lemma_contains_add(seq![l.0], l.1@, n);
            assert(seq![l.0][0] == l.0);
            assert(both(l).contains(n));
        }
    }
    assert forall|a: N, b: N| #[trigger] pairs.contains((a, b)) <==> exists|l: (N, Vec<N>)|
        #[trigger] lists.contains(l) && l.0 == a && l.1@.contains(b) by {
        sequences::lemma_flat_contains(lists, part, (a, b));
        if pairs.contains((a, b)) {
            let l = choose|l: (N, Vec<N>)| lists.contains(l) && #[trigger] part(l).contains((a, b));
            let k = part(l).index_of((a, b));
            assert(l.1@[k] == b);
            assert(lists.contains(l) && l.0 == a && l.1@.contains(b));
        }
        if exists|l: (N, Vec<N>)| #[trigger] lists.contains(l) && l.0 == a && l.1@.contains(b) {
            let l = choose|l: (N, Vec<N>)| #[trigger]
                lists.contains(l) && l.0 == a && l.1@.contains(b);
            assert(part(l)[l.1@.index_of(b)] == (a, b));
            assert(part(l).contains((a, b)));
        }
    }
    assert forall|i: int| 0 <= i < pairs.len() implies all.contains((#[trigger] pairs[i]).1) by {
        assert(pairs.contains((pairs[i].0, pairs[i].1)));
        sequences::lemma_contains_add(heads, listed, pairs[i].1);
    }
    graph::lemma_gathered_canonical(all, pairs);
    graph::lemma_gathered_edges(all, pairs);
    sequences::lemma_distinct_prefix(heads, listed);
    assert forall|a: N, b: N| #[trigger] pairs.contains((a, b)) implies all.contains(a) by {
        let l = choose|l: (N, Vec<N>)| #[trigger]
            lists.contains(l) && l.0 == a && l.1@.contains(b);
        assert(lists.contains(l) && (l.0 == a || l.1@.contains(a)));
    }
}

/// Reversing a graph keeps its nodes and reverses its edges.
pub proof fn law_reverse_reverses_edges<N>(g: GraphView<N>)
    requires
        g.canonical(),
    ensures
        g.reversed().canonical(),
        forall|n: N| #[trigger] g.reversed().nodes.contains(n) <==> g.nodes.contains(n),
        forall|a: N, b: N| #[trigger] g.reversed().has_edge(a, b) <==> g.has_edge(b, a),
{
    graph::lemma_reversed(g);
}

/// Reversing a graph twice gives back its nodes and its edges.
pub proof fn law_reverse_twice<N>(g: GraphView<N>)
    requires
        g.canonical(),
    ensures
        g.reversed().reversed().same_as(g),
{
    graph::lemma_reversed(g);
    graph::lemma_reversed(g.reversed());
}

/// Two graphs are equal if and only if they have the same nodes and the same edges.
pub proof fn law_equal_graphs_have_the_same_edges<N>(g: GraphView<N>, h: GraphView<N>)
    requires
        g.canonical(),
        h.canonical(),
    ensures
        g.same_children(h) <==> g.same_as(h),
{
    if g.same_children(h) {
        assert forall|n: N| #[trigger] g.nodes.contains(n) <==> h.nodes.contains(n) by {
            assert(g.children.contains_key(n) <==> g.nodes.contains(n));
            assert(h.children.contains_key(n) <==> h.nodes.contains(n));
            assert(g.children.dom().contains(n) <==> h.children.dom().contains(n));
        }
        assert forall|a: N, b: N| #[trigger] g.has_edge(a, b) <==> h.has_edge(a, b) by {
            assert(g.children.dom().contains(a) <==> h.children.dom().contains(a));
            if g.children.contains_key(a) {
                assert(g.children[a].to_set().contains(b) <==> h.children[a].to_set().contains(b));
            }
        }
    }
    if g.same_as(h) {
        assert forall|n: N| g.children.dom().contains(n) <==> h.children.dom().contains(n) by {
            assert(g.children.contains_key(n) <==> g.nodes.contains(n));
            assert(h.children.contains_key(n) <==> h.nodes.contains(n));
        }
        assert forall|n: N| #[trigger] g.children.contains_key(n) implies g.children[n].to_set()
            =~= h.children[n].to_set() by {
            assert(h.children.dom().contains(n));
            assert forall|b: N| g.children[n].to_set().contains(b) <==> h.children[
                n
            ].to_set().contains(b) by {
                assert(g.has_edge(n, b) <==> h.has_edge(n, b));
            }
        }
    }
}

/// The order of what is gathered.
proof fn lemma_gathered_order<N>(heads: Seq<N>, pairs: Seq<(N, N)>)
    ensures
        graph::gathered(heads, pairs).nodes.no_duplicates(),
        forall|a: N, b: N| #[trigger]
            order::before(graph::gathered(heads, pairs).nodes, a, b) <==> order::before(
                heads,
                a,
                b,
            ),
        forall|n: N| #[trigger]
            heads.contains(n) ==> graph::gathered(heads, pairs).children[n].no_duplicates(),
        forall|n: N, a: N, b: N| #[trigger]
            order::before(graph::gathered(heads, pairs).children[n], a, b) && heads.contains(n)
                ==> order::before(pairs, (n, a), (n, b)),
        forall|n: N, a: N, b: N| #[trigger]
            order::before(pairs, (n, a), (n, b)) && heads.contains(n) ==> order::before(
                graph::gathered(heads, pairs).children[n],
                a,
                b,
            ),
{
    let g = graph::gathered(heads, pairs);
    order::law_distinct_keeps_first_occurrences(heads);
    assert forall|n: N| #[trigger] heads.contains(n) implies g.children[n].no_duplicates() by {
        sequences::lemma_distinct_no_duplicates(sequences::ends_of(pairs, n));
    }
    assert forall|n: N, a: N, b: N|
        #![trigger order::before(g.children[n], a, b)]
        #![trigger order::before(pairs, (n, a), (n, b))]
        heads.contains(n) implies (order::before(g.children[n], a, b) <==> order::before(
        pairs,
        (n, a),
        (n, b),
    )) by {
        order::lemma_before_distinct(sequences::ends_of(pairs, n), a, b);
        order::lemma_before_ends(pairs, n, a, b);
    }
}

/// The graph of a list of edges keeps the order of the list. The nodes that start an edge come
/// first, in the order in which the list has edges from them. The others follow, in the order in
/// which the list has edges to them. The children of a node come in the order in which the list
/// has the edges to them. Nothing comes twice.
pub proof fn law_edge_list_order<N>(edges: Seq<(N, N)>)
    ensures
        graph::of_edges(edges).nodes.no_duplicates(),
        forall|n: N| #[trigger]
            graph::of_edges(edges).children.contains_key(n) ==> graph::of_edges(
                edges,
            ).children[n].no_duplicates(),
        ({
            let from = edges.map_values(|e: (N, N)| e.0);
            let to = edges.map_values(|e: (N, N)| e.1);
            let g = graph::of_edges(edges);
            &&& forall|a: N, b: N|
                from.contains(a) && from.contains(b) ==> (#[trigger] order::before(g.nodes, a, b)
                    <==> order::before(from, a, b))
            &&& forall|a: N, b: N|
                from.contains(a) && !from.contains(b) ==> #[trigger] order::before(g.nodes, a, b)
            &&& forall|a: N, b: N|
                !from.contains(a) && !from.contains(b) ==> (#[trigger] order::before(
                    g.nodes,
                    a,
                    b,
                ) <==> order::before(to, a, b))
            &&& forall|a: N, b: N| #[trigger]
                order::before(g.nodes, a, b) <==> order::before(from + to, a, b)
        }),
        forall|n: N, a: N, b: N|
            edges.contains((n, a)) && edges.contains((n, b)) ==> (#[trigger] order::before(
                graph::of_edges(edges).children[n],
                a,
                b,
            ) <==> order::before(edges, (n, a), (n, b))),
{
    let first = |e: (N, N)| e.0;
    let second = |e: (N, N)| e.1;
    let both = |e: (N, N)| seq![e.0, e.1];
    let one = |e: (N, N)| seq![e.1];
    let from = edges.map_values(first);
    let to = edges.map_values(second);
    let listed = edges.flat_map(both);
    let all = from + listed;
    let g = graph::of_edges(edges);
    lemma_gathered_order(all, edges);
    assert forall|n: N| #[trigger] g.children.contains_key(n) implies g.children[
        n
    ].no_duplicates() by {
        assert(all.contains(n));
    }
    assert forall|a: N, b: N| #[trigger] order::before(g.nodes, a, b) <==> order::before(from, a, b)
        || (!from.contains(b) && order::before(listed, a, b)) by {
        order::lemma_before_add(from, listed, a, b);
    }
    assert forall|a: N, b: N| from.contains(a) && !from.contains(b) implies #[trigger] order::before(
        g.nodes,
        a,
        b,
    ) by {
        order::lemma_before_contains(from, a, b);
    }
    assert forall|a: N, b: N| !from.contains(a) && !from.contains(b) implies (
    #[trigger] order::before(g.nodes, a, b) <==> order::before(to, a, b)) by {
        order::lemma_before_contains(from, a, b);
        order::lemma_flat_single(edges, second, one);
        assert forall|e: (N, N)| #[trigger] edges.contains(e) implies (order::before(
            both(e),
            a,
            b,
        ) <==> order::before(one(e), a, b)) && (both(e).contains(b) <==> one(e).contains(b)) by {
            assert(from[edges.index_of(e)] == e.0);
            assert(from.contains(e.0));
            let start = seq![e.0];
            assert(both(e) =~= start + one(e));
            assert(forall|x: N| #[trigger] start.contains(x) ==> x == e.0);
            order::lemma_before_add(start, one(e), a, b);
            order::lemma_before_contains(start, a, b);
            sequences::lemma_contains_add(start, one(e), b);
        }
        order::lemma_before_flat(edges, both, one, a, b);
    }
    assert forall|a: N, b: N| #[trigger] order::before(g.nodes, a, b) <==> order::before(
        from + to,
        a,
        b,
    ) by {
        order::lemma_before_add(from, to, a, b);
        order::lemma_before_contains(from, a, b);
        if from.contains(a) && from.contains(b) && a != b {
            order::law_one_comes_first(from, a, b);
        }
    }
    assert forall|n: N, a: N, b: N|
        edges.contains((n, a)) && edges.contains((n, b)) implies (#[trigger] order::before(
        g.children[n],
        a,
        b,
    ) <==> order::before(edges, (n, a), (n, b))) by {
        assert(from[edges.index_of((n, a))] == n);
        sequences::lemma_contains_add(from, listed, n);
    }
}

/// The graph of an adjacency list keeps the order of the list. The nodes that have a list come
/// first, in the order of the lists. The others follow, in the order in which the lists name them.
/// The children of a node come in the order in which the lists of that node name them. Nothing
/// comes twice.
pub proof fn law_adjacency_list_order<N>(lists: Seq<(N, Vec<N>)>)
    ensures
        graph::of_lists(lists).nodes.no_duplicates(),
        forall|n: N| #[trigger]
            graph::of_lists(lists).children.contains_key(n) ==> graph::of_lists(
                lists,
            ).children[n].no_duplicates(),
        ({
            let from = lists.map_values(|l: (N, Vec<N>)| l.0);
            let to = lists.flat_map(|l: (N, Vec<N>)| l.1@);
            let edges = lists.flat_map(
                |l: (N, Vec<N>)| l.1@.map_values(|child: N| (l.0, child)),
            );
            let g = graph::of_lists(lists);
            &&& forall|a: N, b: N|
                from.contains(a) && from.contains(b) ==> (#[trigger] order::before(g.nodes, a, b)
                    <==> order::before(from, a, b))
            &&& forall|a: N, b: N|
                from.contains(a) && !from.contains(b) ==> #[trigger] order::before(g.nodes, a, b)
            &&& forall|a: N, b: N|
                !from.contains(a) && !from.contains(b) ==> (#[trigger] order::before(
                    g.nodes,
                    a,
                    b,
                ) <==> order::before(to, a, b))
            &&& forall|a: N, b: N| #[trigger]
                order::before(g.nodes, a, b) <==> order::before(from + to, a, b)
            &&& forall|n: N, a: N, b: N|
                g.children.contains_key(n) ==> (#[trigger] order::before(g.children[n], a, b)
                    <==> order::before(edges, (n, a), (n, b)))
        }),
{
    let first = |l: (N, Vec<N>)| l.0;
    let both = |l: (N, Vec<N>)| seq![l.0] + l.1@;
    let rest = |l: (N, Vec<N>)| l.1@;
    let part = |l: (N, Vec<N>)| l.1@.map_values(|child: N| (l.0, child));
    let from = lists.map_values(first);
    let listed = lists.flat_map(both);
    let to = lists.flat_map(rest);
    let edges = lists.flat_map(part);
    let all = from + listed;
    let g = graph::of_lists(lists);
    assert(g == graph::gathered(all, edges));
    lemma_gathered_order(all, edges);
    assert forall|n: N| #[trigger] g.children.contains_key(n) implies g.children[
        n
    ].no_duplicates() by {
        assert(all.contains(n));
    }
    assert forall|a: N, b: N| #[trigger] order::before(g.nodes, a, b) <==> order::before(from, a, b)
        || (!from.contains(b) && order::before(listed, a, b)) by {
        order::lemma_before_add(from, listed, a, b);
    }
    assert forall|a: N, b: N| from.contains(a) && !from.contains(b) implies #[trigger] order::before(
        g.nodes,
        a,
        b,
    ) by {
        order::lemma_before_contains(from, a, b);
    }
    assert forall|a: N, b: N| !from.contains(a) && !from.contains(b) implies (
    #[trigger] order::before(g.nodes, a, b) <==> order::before(to, a, b)) by {
        order::lemma_before_contains(from, a, b);
        assert forall|l: (N, Vec<N>)| #[trigger] lists.contains(l) implies (order::before(
            both(l),
            a,
            b,
        ) <==> order::before(rest(l), a, b)) && (both(l).contains(b) <==> rest(l).contains(b)) by {
            assert(from[lists.index_of(l)] == l.0);
            assert(from.contains(l.0));
            let start = seq![l.0];
            assert(both(l) == start + rest(l));
            assert(forall|x: N| #[trigger] start.contains(x) ==> x == l.0);
            order::lemma_before_add(start, rest(l), a, b);
            order::lemma_before_contains(start, a, b);
            sequences::lemma_contains_add(start, rest(l), b);
        }
        order::lemma_before_flat(lists, both, rest, a, b);
    }
    assert forall|a: N, b: N| #[trigger] order::before(g.nodes, a, b) <==> order::before(
        from + to,
        a,
        b,
    ) by {
        order::lemma_before_add(from, to, a, b);
        order::lemma_before_contains(from, a, b);
        if from.contains(a) && from.contains(b) && a != b {
            order::law_one_comes_first(from, a, b);
        }
    }
    assert forall|n: N, a: N, b: N| g.children.contains_key(n) implies (#[trigger] order::before(
        g.children[n],
        a,
        b,
    ) <==> order::before(edges, (n, a), (n, b))) by {
        assert(all.contains(n));
    }
}

/// The graph of an adjacency map has the keys of the map as its first nodes, in order, each with
/// the children that the map lists for it, in order. The children that are no keys follow, in the
/// order in which the map lists them, without children. There are no other nodes.
pub proof fn law_graph_of_map<N>(adj: OrderedMap<N, OrderedSet<N>>)
    requires
        adj.wf(),
        forall|n: N| #[trigger] adj@.contains_key(n) ==> adj@[n].wf(),
    ensures
        ({
            let g = graph::adjacency(adj).completed();
            let listed = adj.keys().flat_map(|n: N| adj@[n]@);
            &&& g.nodes.no_duplicates()
            &&& adj.keys().is_prefix_of(g.nodes)
            &&& forall|n: N| #[trigger]
                g.nodes.contains(n) <==> adj.keys().contains(n) || listed.contains(n)
            &&& forall|n: N| #[trigger] g.children.contains_key(n) <==> g.nodes.contains(n)
            &&& forall|n: N| #[trigger]
                g.children.contains_key(n) ==> g.children[n] == if adj@.contains_key(n) {
                    adj@[n]@
                } else {
                    Seq::<N>::empty()
                }
            &&& forall|a: N, b: N|
                !adj.keys().contains(a) && !adj.keys().contains(b) ==> (#[trigger] order::before(
                    g.nodes,
                    a,
                    b,
                ) <==> order::before(listed, a, b))
        }),
{
    let h = graph::adjacency(adj);
    let g = h.completed();
    let lists = |n: N| adj@[n]@;
    let children = |n: N| h.children[n];
    let listed = adj.keys().flat_map(lists);
    assert(adj.keys().map_values(lists) =~= adj.keys().map_values(children)) by {
        assert forall|i: int| 0 <= i < adj.keys().len() implies lists(adj.keys()[i]) == children(
            adj.keys()[i],
        ) by {
            assert(adj.keys().contains(adj.keys()[i]));
            assert(adj@.contains_key(adj.keys()[i]));
        }
    }
    assert(listed == adj.keys().flat_map(children));
    let all = adj.keys() + listed;
    assert(g.nodes == sequences::distinct(all));
    order::law_distinct_keeps_first_occurrences(all);
    sequences::lemma_distinct_of_distinct(adj.keys());
    sequences::lemma_distinct_prefix(adj.keys(), listed);
    assert forall|n: N| #[trigger] g.nodes.contains(n) <==> adj.keys().contains(n)
        || listed.contains(n) by {
        sequences::lemma_contains_add(adj.keys(), listed, n);
    }
    assert forall|n: N| #[trigger] h.children.contains_key(n) implies h.children[
        n
    ].no_duplicates() by {
        assert(adj@[n].wf());
    }
    assert forall|a: N, b: N| !adj.keys().contains(a) && !adj.keys().contains(b) implies (
    #[trigger] order::before(g.nodes, a, b) <==> order::before(listed, a, b)) by {
        order::lemma_before_add(adj.keys(), listed, a, b);
        order::lemma_before_contains(adj.keys(), a, b);
    }
}

/// Reversing a graph keeps order. The parents of a node come in the order of the nodes, and the
/// nodes in the order in which the graph names them, each node before its children.
pub proof fn law_reverse_order<N>(g: GraphView<N>)
    requires
        g.canonical(),
    ensures
        g.reversed().nodes.no_duplicates(),
        forall|n: N| #[trigger]
            g.reversed().children.contains_key(n) ==> g.reversed().children[n].no_duplicates(),
        ({
            let named = g.nodes.flat_map(|p: N| seq![p] + g.children[p]);
            forall|a: N, b: N| #[trigger]
                order::before(g.reversed().nodes, a, b) <==> order::before(named, a, b)
        }),
        forall|n: N, a: N, b: N|
            g.has_edge(a, n) && g.has_edge(b, n) ==> (#[trigger] order::before(
                g.reversed().children[n],
                a,
                b,
            ) <==> order::before(g.nodes, a, b)),
{
    let named = g.nodes.flat_map(|p: N| seq![p] + g.children[p]);
    order::law_distinct_keeps_first_occurrences(named);
    assert forall|n: N| #[trigger] g.reversed().children.contains_key(n) implies g.reversed().children[
        n
    ].no_duplicates() by {
        sequences::lemma_filter_no_duplicates(g.nodes, |p: N| g.has_edge(p, n));
    }
    assert forall|n: N, a: N, b: N| g.has_edge(a, n) && g.has_edge(b, n) implies (
    #[trigger] order::before(g.reversed().children[n], a, b) <==> order::before(
        g.nodes,
        a,
        b,
    )) by {
        assert(g.nodes.contains(n));
        order::lemma_before_filter(g.nodes, |p: N| g.has_edge(p, n), a, b);
    }
}

/// The edges out of the first `i` nodes come in the order of these nodes, and those out of one node
/// in the order of its children.
proof fn lemma_first_edges_order<N>(g: GraphView<N>, i: int, e: (N, N), f: (N, N))
    requires
        g.canonical(),
        0 <= i <= g.nodes.len(),
        g.has_edge(e.0, e.1),
        g.has_edge(f.0, f.1),
    ensures
        first_edges(g, i).contains(e) <==> g.nodes.take(i).contains(e.0),
        first_edges(g, i).contains(f) <==> g.nodes.take(i).contains(f.0),
        order::before(first_edges(g, i), e, f) <==> g.nodes.take(i).contains(e.0) && (
        order::before(g.nodes.take(i), e.0, f.0) || (e.0 == f.0 && order::before(
            g.children[e.0],
            e.1,
            f.1,
        ))),
    decreases i,
{
    let part = |p: N| g.edges_from(p);
    if i == 0 {
        assert(first_edges(g, i) =~= Seq::<(N, N)>::empty());
    } else {
        let before = g.nodes.take(i - 1);
        let p = g.nodes[i - 1];
        let a = first_edges(g, i - 1);
        let b = part(p);
        lemma_first_edges_order(g, i - 1, e, f);
        g.nodes.lemma_flat_map_take_append(part, i - 1);
        assert(g.nodes.take(i) =~= before.push(p));
        assert(first_edges(g, i) == a + b);
        assert(!before.contains(p)) by {
            if before.contains(p) {
                assert(g.nodes[before.index_of(p)] == p);
            }
        }
        sequences::lemma_contains_push(before, p, e.0);
        sequences::lemma_contains_push(before, p, f.0);
        sequences::lemma_contains_add(a, b, e);
        sequences::lemma_contains_add(a, b, f);
        order::lemma_before_add(a, b, e, f);
        order::lemma_before_push(before, p, e.0, f.0);
        order::lemma_before_contains(before, e.0, f.0);
        order::lemma_before_contains(a, e, f);
        order::lemma_before_contains(b, e, f);
        lemma_edges_from(g, p, e, f);
    }
}

/// The edges out of a node.
proof fn lemma_edges_from<N>(g: GraphView<N>, p: N, e: (N, N), f: (N, N))
    requires
        g.has_edge(e.0, e.1),
        g.has_edge(f.0, f.1),
    ensures
        g.edges_from(p).contains(e) <==> e.0 == p,
        g.edges_from(p).contains(f) <==> f.0 == p,
        e.0 == p && f.0 == p ==> (order::before(g.edges_from(p), e, f) <==> order::before(
            g.children[p],
            e.1,
            f.1,
        )),
{
    let out = g.edges_from(p);
    let children = g.children[p];
    if e.0 == p {
        assert(out[children.index_of(e.1)] == e);
    }
    if f.0 == p {
        assert(out[children.index_of(f.1)] == f);
    }
    if e.0 == p && f.0 == p {
        if order::before(out, e, f) {
            let i = choose|i: int|
                0 <= i < out.len() && #[trigger] out[i] == e && forall|j: int|
                    0 <= j <= i ==> out[j] != f;
            assert(children[i] == e.1);
            assert forall|j: int| 0 <= j <= i implies children[j] != f.1 by {
                assert(out[j] == (p, children[j]));
            }
        }
        if order::before(children, e.1, f.1) {
            let i = choose|i: int|
                0 <= i < children.len() && #[trigger] children[i] == e.1 && forall|j: int|
                    0 <= j <= i ==> children[j] != f.1;
            assert(out[i] == e);
            assert forall|j: int| 0 <= j <= i implies out[j] != f by {
                assert(out[j] == (p, children[j]));
            }
        }
    }
}

/// The edges of a graph are listed in the order of the nodes that they leave, and those that leave
/// the same node in the order of its children.
pub proof fn law_edges_order<N>(g: GraphView<N>, e: (N, N), f: (N, N))
    requires
        g.canonical(),
        g.has_edge(e.0, e.1),
        g.has_edge(f.0, f.1),
    ensures
        order::before(g.edges(), e, f) <==> order::before(g.nodes, e.0, f.0) || (e.0 == f.0
            && order::before(g.children[e.0], e.1, f.1)),
{
    lemma_first_edges_order(g, g.nodes.len() as int, e, f);
    assert(g.nodes.take(g.nodes.len() as int) =~= g.nodes);
    assert(g.children.contains_key(e.0));
    assert(first_edges(g, g.nodes.len() as int) == g.edges());
}

/// `==` on graphs: two graphs are equal if and only if they have the same nodes and the same edges,
/// in whatever order.
pub proof fn law_graph_equality<N: Hash + Eq + Clone>(
    a: SimpleDirectedGraph<N>,
    b: SimpleDirectedGraph<N>,
)
    requires
        keys::key_model::<N>(),
        a.wf(),
        b.wf(),
    ensures
        SimpleDirectedGraph::<N>::obeys_eq_spec(),
        a.eq_spec(&b) <==> {
            &&& forall|n: N| #[trigger] a@.nodes.contains(n) <==> b@.nodes.contains(n)
            &&& forall|m: N, n: N| #[trigger]
                a@.edges().contains((m, n)) <==> b@.edges().contains((m, n))
        },
{
    law_equal_graphs_have_the_same_edges(a@, b@);
    assert forall|m: N, n: N| #[trigger] a@.edges().contains((m, n)) <==> a@.has_edge(m, n) by {
        law_edges_are_listed(a@, m, n);
    }
    assert forall|m: N, n: N| #[trigger] b@.edges().contains((m, n)) <==> b@.has_edge(m, n) by {
        law_edges_are_listed(b@, m, n);
    }
    if forall|m: N, n: N| #[trigger]
        a@.edges().contains((m, n)) <==> b@.edges().contains((m, n)) {
        assert forall|m: N, n: N| #[trigger] a@.has_edge(m, n) <==> b@.has_edge(m, n) by {
            assert(a@.edges().contains((m, n)) <==> b@.edges().contains((m, n)));
        }
    }
}

} // verus!
