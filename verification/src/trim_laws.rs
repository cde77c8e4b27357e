//! Laws of trimming: what is kept, and in which order.

use crate::graph;
use crate::graph::GraphView;
use crate::graph_laws;
use crate::order;
use crate::sequences;
use crate::trim;
use crate::ways;
use vstd::prelude::*;

verus! {

/// There is a way from `n` to a final node.
pub open spec fn has_way_to_final<N>(edges: Seq<(N, N)>, finals: Seq<N>, n: N) -> bool {
    exists|f: N| #[trigger] finals.contains(f) && ways::has_way(set![n], edges, f)
}

/// Ways are paths.
proof fn lemma_way_is_path<N>(g: GraphView<N>, a: N, b: N)
    requires
        g.canonical(),
    ensures
        ways::has_way(set![a], g.edges(), b) <==> g.leads(a, b),
{
    assert forall|x: N, y: N| #[trigger] g.edges().contains((x, y)) <==> g.has_edge(x, y) by {
        graph_laws::law_edges_are_listed(g, x, y);
    }
    if ways::has_way(set![a], g.edges(), b) {
        let p = choose|p: Seq<N>| ways::is_way(set![a], g.edges(), p, b);
        assert forall|i: int| 0 <= i < p.len() - 1 implies #[trigger] g.follows_edge(p, i) by {
            assert(g.edges().contains((p[i], p[i + 1])));
        }
        assert(g.is_path_between(p, a, b));
    }
    if g.leads(a, b) {
        let p = choose|p: Seq<N>| g.is_path_between(p, a, b);
        assert forall|i: int, j: int| 0 <= i && j == i + 1 && j < p.len() implies g.edges().contains(
            (#[trigger] p[i], #[trigger] p[j]),
        ) by {
            assert(g.follows_edge(p, i));
        }
        assert(ways::is_way(set![a], g.edges(), p, b));
    }
}

/// Trimming keeps exactly the edges to nodes from which there is a way to a final node. Besides the
/// start node, it keeps exactly the nodes of the graph from which there is one. Nothing is listed
/// twice.
pub proof fn law_trim_keeps_what_has_a_way<N>(g: GraphView<N>, start: N, finals: Seq<N>)
    requires
        g.canonical(),
    ensures
        forall|p: N, c: N| #[trigger]
            trim::trimmed(g, start, finals).edges().contains((p, c)) <==> g.edges().contains(
                (p, c),
            ) && has_way_to_final(g.edges(), finals, c),
        forall|n: N| #[trigger]
            trim::trimmed(g, start, finals).nodes.contains(n) <==> n == start
                || g.nodes.contains(n) && has_way_to_final(g.edges(), finals, n),
        trim::trimmed(g, start, finals).nodes.no_duplicates(),
        trim::trimmed(g, start, finals).edges().no_duplicates(),
{
    let t = trim::trimmed(g, start, finals);
    trim::law_trim_is_backwards_reachable_subgraph(g, start, finals);
    graph_laws::law_no_edge_is_listed_twice(t);
    assert forall|n: N| #[trigger] has_way_to_final(g.edges(), finals, n)
        <==> trim::leads_backwards(g, finals, n) by {
        lemma_ways_lead_backwards(g, finals, n);
    }
    assert forall|p: N, c: N| #[trigger] t.edges().contains((p, c)) <==> g.edges().contains((p, c))
        && has_way_to_final(g.edges(), finals, c) by {
        graph_laws::law_edges_are_listed(g, p, c);
        graph_laws::law_edges_are_listed(t, p, c);
    }
}

/// What has a way to a final node leads to one.
proof fn lemma_ways_lead_backwards<N>(g: GraphView<N>, finals: Seq<N>, n: N)
    requires
        g.canonical(),
    ensures
        has_way_to_final(g.edges(), finals, n) <==> trim::leads_backwards(g, finals, n),
{
    if has_way_to_final(g.edges(), finals, n) {
        let f = choose|f: N| #[trigger]
            finals.contains(f) && ways::has_way(set![n], g.edges(), f);
        lemma_way_is_path(g, n, f);
        assert(finals.contains(f) && g.leads(n, f));
    }
    if trim::leads_backwards(g, finals, n) {
        let f = choose|f: N| #[trigger] finals.contains(f) && g.leads(n, f);
        lemma_way_is_path(g, n, f);
        assert(finals.contains(f) && ways::has_way(set![n], g.edges(), f));
    }
}

/// The nodes other than the start node that have an edge to `c`, in the order of the nodes.
pub open spec fn other_parents<N>(g: GraphView<N>, start: N, c: N) -> Seq<N> {
    g.nodes.filter(|p: N| g.has_edge(p, c)).filter(|p: N| p != start)
}

/// `queue` lists, breadth first, what a search backwards finds from `seed` without the start node:
/// first the seed, then, for each node of the queue, its parents. Every node that is not in the
/// seed has an edge to one that comes before it.
pub open spec fn searches_backwards<N>(
    g: GraphView<N>,
    start: N,
    seed: Seq<N>,
    queue: Seq<N>,
) -> bool {
    &&& queue == sequences::distinct(
        seed + queue.flat_map(|c: N| other_parents(g, start, c)),
    )
    &&& forall|j: int|
        0 <= j < queue.len() ==> seed.contains(#[trigger] queue[j]) || exists|i: int|
            0 <= i < j && g.has_edge(queue[j], #[trigger] queue[i])
}

/// `visited` lists what a search backwards from the final nodes visits: everything that it finds
/// without the start node and then, if that is final or has an edge to something found, the start
/// node and what it finds from there.
pub open spec fn visits_backwards<N>(
    g: GraphView<N>,
    start: N,
    finals: Seq<N>,
    visited: Seq<N>,
    k: int,
) -> bool {
    let first = visited.take(k);
    &&& 0 <= k <= visited.len()
    &&& searches_backwards(g, start, finals.filter(|f: N| f != start), first)
    &&& k < visited.len() <==> finals.contains(start) || exists|c: N| #[trigger]
        first.contains(c) && g.has_edge(start, c)
    &&& k < visited.len() ==> visited[k] == start && searches_backwards(
        g,
        start,
        first + other_parents(g, start, start),
        first + visited.skip(k + 1),
    )
}

/// The order in which a trimmed graph lists its nodes and edges.
///
/// It follows a search backwards from the final nodes. The nodes that start edges come first, in
/// the order in which the search meets these edges; it meets the edges to each node that it visits
/// in the order of the nodes that start them. The start node comes next, then final nodes without
/// edges to them, in the order of the final nodes, and then the other nodes, as they are listed as
/// children. The children of each node come in the order in which the search visits them.
pub proof fn law_trim_order<N>(g: GraphView<N>, start: N, finals: Seq<N>) -> (found: (Seq<N>, int))
    requires
        g.canonical(),
    ensures
        visits_backwards(g, start, finals, found.0, found.1),
        ({
            let t = trim::trimmed(g, start, finals);
            let parents = found.0.flat_map(|c: N| g.nodes.filter(|p: N| g.has_edge(p, c)));
            let lone = finals.filter(
                |f: N| g.nodes.contains(f) && g.nodes.filter(|p: N| g.has_edge(p, f)).len() == 0,
            );
            let listed = t.nodes.flat_map(|n: N| t.children[n]);
            forall|a: N, b: N| #[trigger]
                order::before(t.nodes, a, b) <==> order::before(
                    parents.push(start) + lone + listed,
                    a,
                    b,
                )
        }),
        forall|p: N, c: N, d: N|
            trim::trimmed(g, start, finals).has_edge(p, c) && trim::trimmed(
                g,
                start,
                finals,
            ).has_edge(p, d) ==> (#[trigger] order::before(
                trim::trimmed(g, start, finals).children[p],
                c,
                d,
            ) <==> order::before(found.0, c, d)),
{
    let visited = trim::looked_at(g, start, finals);
    let first = trim::sweep(g, start, finals);
    let k = first.len() as int;
    assert(visited.take(k) =~= first);
    lemma_sweep_searches(g, start, finals);
    if trim::comes_to_start(g, start, finals) {
        let seed = first + g.parents(start);
        let rest = trim::sweep(g, start, seed).skip(k);
        trim::lemma_second_search(g, start, finals);
        assert(first + visited.skip(k + 1) =~= trim::sweep(g, start, seed)) by {
            assert(visited.skip(k + 1) =~= rest);
            assert(trim::sweep(g, start, seed) =~= first + rest);
        }
        lemma_sweep_searches(g, start, seed);
        lemma_seed_beyond(g, start, finals);
        assert(g.parents(start).filter(|n: N| n != start) == other_parents(g, start, start));
    }
    assert(visits_backwards(g, start, finals, visited, k));
    lemma_trimmed_nodes(g, start, finals);
    lemma_trimmed_children(g, start, finals);
    (visited, k)
}

/// The seed of the second search, without the start node.
proof fn lemma_seed_beyond<N>(g: GraphView<N>, start: N, finals: Seq<N>)
    requires
        g.canonical(),
    ensures
        (trim::sweep(g, start, finals) + g.parents(start)).filter(|n: N| n != start)
            == trim::sweep(g, start, finals) + g.parents(start).filter(|n: N| n != start),
{
    let first = trim::sweep(g, start, finals);
    let other = |n: N| n != start;
    trim::lemma_found(g, start, finals, g.nodes.len() + finals.len());
    Seq::filter_distributes_over_add(first, g.parents(start), other);
    sequences::lemma_filter_all(first, other);
}

/// What a search has found is what it began with and the parents of what it has looked at.
proof fn lemma_found_searches<N>(g: GraphView<N>, start: N, finals: Seq<N>, k: nat)
    requires
        g.canonical(),
    ensures
        ({
            let queue = trim::found(g, start, finals, k);
            let seed = finals.filter(|f: N| f != start);
            let done = if k < queue.len() {
                k as int
            } else {
                queue.len() as int
            };
            &&& queue == sequences::distinct(
                seed + queue.take(done).flat_map(|c: N| other_parents(g, start, c)),
            )
            &&& forall|j: int|
                0 <= j < queue.len() ==> seed.contains(#[trigger] queue[j]) || exists|i: int|
                    0 <= i < j && g.has_edge(queue[j], #[trigger] queue[i])
        }),
    decreases k,
{
    let queue = trim::found(g, start, finals, k);
    let seed = finals.filter(|f: N| f != start);
    let part = |c: N| other_parents(g, start, c);
    order::law_distinct_keeps_first_occurrences(seed);
    if k == 0 {
        assert(seed + queue.take(0).flat_map(part) =~= seed) by {
            assert(queue.take(0).flat_map(part) =~= Seq::<N>::empty());
        }
        assert forall|j: int| 0 <= j < queue.len() implies seed.contains(#[trigger] queue[j]) by {
            assert(queue.contains(queue[j]));
        }
    } else {
        let before = trim::found(g, start, finals, (k - 1) as nat);
        lemma_found_searches(g, start, finals, (k - 1) as nat);
        trim::lemma_found(g, start, finals, (k - 1) as nat);
        if k - 1 < before.len() {
            let c = before[k - 1];
            let more = part(c);
            let all = seed + before.take(k - 1).flat_map(part);
            assert(queue == sequences::distinct(before + more));
            sequences::lemma_distinct_of_distinct(before);
            sequences::lemma_distinct_prefix(before, more);
            assert forall|i: int| 0 <= i < before.len() implies before[i] == queue[i] by {
                assert(queue.take(before.len() as int)[i] == queue[i]);
            }
            order::lemma_distinct_of_first(all, more);
            assert(queue.take(k as int) =~= before.take(k - 1).push(c));
            before.take(k - 1).lemma_flat_map_push(part, c);
            assert(all + more =~= seed + queue.take(k as int).flat_map(part));
            assert forall|j: int| 0 <= j < queue.len() implies seed.contains(#[trigger] queue[j])
                || exists|i: int| 0 <= i < j && g.has_edge(queue[j], #[trigger] queue[i]) by {
                if j < before.len() {
                    assert(queue[j] == before[j]);
                    if !seed.contains(before[j]) {
                        let i = choose|i: int|
                            0 <= i < j && g.has_edge(before[j], #[trigger] before[i]);
                        assert(queue[i] == before[i]);
                    }
                } else {
                    let n = queue[j];
                    assert(queue.contains(n));
                    sequences::lemma_distinct_contains(before + more, n);
                    sequences::lemma_contains_add(before, more, n);
                    if before.contains(n) {
                        let i = before.index_of(n);
                        assert(queue[i] == n);
                        sequences::lemma_distinct_no_duplicates(before + more);
                    } else {
                        sequences::lemma_filter_contains(
                            g.nodes.filter(|p: N| g.has_edge(p, c)),
                            |p: N| p != start,
                            n,
                        );
                        sequences::lemma_filter_contains(g.nodes, |p: N| g.has_edge(p, c), n);
                        assert(queue[k - 1] == c);
                    }
                }
            }
        }
    }
}

/// A complete search lists what it finds breadth first.
proof fn lemma_sweep_searches<N>(g: GraphView<N>, start: N, finals: Seq<N>)
    requires
        g.canonical(),
    ensures
        searches_backwards(
            g,
            start,
            finals.filter(|f: N| f != start),
            trim::sweep(g, start, finals),
        ),
{
    let bound = g.nodes.len() + finals.len();
    let all = trim::sweep(g, start, finals);
    lemma_found_searches(g, start, finals, bound);
    trim::lemma_found(g, start, finals, bound);
    assert(all.take(all.len() as int) =~= all);
}

/// The first components of the edges into the given nodes.
proof fn lemma_heads_of_edges<N>(g: GraphView<N>, nodes: Seq<N>)
    ensures
        trim::heads_of(trim::edges_into_all(g, nodes)) == nodes.flat_map(|c: N| g.parents(c)),
    decreases nodes.len(),
{
    let part = |c: N| trim::edges_into(g.parents(c), c);
    let parents = |c: N| g.parents(c);
    if nodes.len() == 0 {
        assert(nodes.flat_map(part) =~= Seq::<(N, N)>::empty());
        assert(nodes.flat_map(parents) =~= Seq::<N>::empty());
    } else {
        let t = nodes.drop_last();
        let c = nodes.last();
        assert(nodes =~= t.push(c));
        lemma_heads_of_edges(g, t);
        t.lemma_flat_map_push(part, c);
        t.lemma_flat_map_push(parents, c);
        assert(trim::heads_of(t.flat_map(part) + part(c)) =~= trim::heads_of(t.flat_map(part))
            + parents(c));
    }
}

/// Nodes without children list nothing.
proof fn lemma_no_children_listed<N>(nodes: Seq<N>, lists: spec_fn(N) -> Seq<N>)
    requires
        forall|n: N| #[trigger] nodes.contains(n) ==> lists(n).len() == 0,
    ensures
        nodes.flat_map(lists) == Seq::<N>::empty(),
{
    let listed = nodes.flat_map(lists);
    if listed.len() > 0 {
        let y = listed[0];
        assert(listed.contains(y));
        sequences::lemma_flat_contains(nodes, lists, y);
        let n = choose|n: N| nodes.contains(n) && #[trigger] lists(n).contains(y);
    }
}

/// The order of the nodes of a trimmed graph.
proof fn lemma_trimmed_nodes<N>(g: GraphView<N>, start: N, finals: Seq<N>)
    requires
        g.canonical(),
    ensures
        ({
            let t = trim::trimmed(g, start, finals);
            let parents = trim::looked_at(g, start, finals).flat_map(
                |c: N| g.nodes.filter(|p: N| g.has_edge(p, c)),
            );
            let lone = finals.filter(
                |f: N| g.nodes.contains(f) && g.nodes.filter(|p: N| g.has_edge(p, f)).len() == 0,
            );
            let listed = t.nodes.flat_map(|n: N| t.children[n]);
            forall|a: N, b: N| #[trigger]
                order::before(t.nodes, a, b) <==> order::before(
                    parents.push(start) + lone + listed,
                    a,
                    b,
                )
        }),
{
    let visited = trim::looked_at(g, start, finals);
    let edges = trim::edges_into_all(g, visited);
    let lone = finals.filter(
        |f: N| g.nodes.contains(f) && g.nodes.filter(|p: N| g.has_edge(p, f)).len() == 0,
    );
    let parents = visited.flat_map(|c: N| g.nodes.filter(|p: N| g.has_edge(p, c)));
    let heads = trim::heads_of(edges).push(start) + trim::lone_finals(g, finals);
    let h = graph::gathered(heads, edges);
    let t = trim::trimmed(g, start, finals);
    lemma_heads_of_edges(g, visited);
    assert(visited.flat_map(|c: N| g.parents(c)) == parents) by {
        assert(visited.map_values(|c: N| g.parents(c)) =~= visited.map_values(
            |c: N| g.nodes.filter(|p: N| g.has_edge(p, c)),
        ));
    }
    assert(trim::lone_finals(g, finals) == lone) by {
        lemma_filter_alike(
            finals,
            |f: N| g.nodes.contains(f) && g.parents(f).len() == 0,
            |f: N| g.nodes.contains(f) && g.nodes.filter(|p: N| g.has_edge(p, f)).len() == 0,
        );
    }
    assert(heads == parents.push(start) + lone);
    let before = |n: N| h.children[n];
    let after = |n: N| t.children[n];
    let flat = h.nodes.flat_map(before);
    order::law_distinct_keeps_first_occurrences(heads);
    order::law_distinct_keeps_first_occurrences(h.nodes + flat);
    sequences::lemma_distinct_of_distinct(h.nodes);
    sequences::lemma_distinct_prefix(h.nodes, flat);
    let rest = t.nodes.skip(h.nodes.len() as int);
    assert(t.nodes =~= h.nodes + rest) by {
        assert(t.nodes.take(h.nodes.len() as int) == h.nodes);
    }
    sequences::lemma_flat_add(h.nodes, rest, after);
    assert(h.nodes.flat_map(after) == flat) by {
        assert(h.nodes.map_values(after) =~= h.nodes.map_values(before)) by {
            assert forall|i: int| 0 <= i < h.nodes.len() implies after(h.nodes[i]) == before(
                h.nodes[i],
            ) by {
                assert(h.nodes.contains(h.nodes[i]));
                assert(t.nodes[i] == h.nodes[i]);
                assert(t.nodes.contains(h.nodes[i]));
                assert(heads.contains(h.nodes[i]));
            }
        }
    }
    assert forall|n: N| #[trigger] rest.contains(n) implies after(n).len() == 0 by {
        let i = h.nodes.len() + rest.index_of(n);
        assert(t.nodes[i] == n);
        assert(t.nodes.contains(n));
        if h.nodes.contains(n) {
            let j = h.nodes.index_of(n);
            assert(t.nodes[j] == n);
        }
        assert(!heads.contains(n));
    }
    lemma_no_children_listed(rest, after);
    let listed = t.nodes.flat_map(after);
    assert(listed =~= flat);
    assert forall|a: N, b: N| #[trigger] order::before(t.nodes, a, b) <==> order::before(
        heads + listed,
        a,
        b,
    ) by {
        order::lemma_before_add(h.nodes, flat, a, b);
        order::lemma_before_add(heads, flat, a, b);
    }
}

/// Two filters that agree keep the same.
proof fn lemma_filter_alike<X>(s: Seq<X>, f: spec_fn(X) -> bool, g: spec_fn(X) -> bool)
    requires
        forall|x: X| #[trigger] f(x) == g(x),
    ensures
        s.filter(f) == s.filter(g),
{
    assert(f =~= g);
}

/// The order of the children in a trimmed graph.
proof fn lemma_trimmed_children<N>(g: GraphView<N>, start: N, finals: Seq<N>)
    requires
        g.canonical(),
    ensures
        forall|p: N, c: N, d: N|
            trim::trimmed(g, start, finals).has_edge(p, c) && trim::trimmed(
                g,
                start,
                finals,
            ).has_edge(p, d) ==> (#[trigger] order::before(
                trim::trimmed(g, start, finals).children[p],
                c,
                d,
            ) <==> order::before(trim::looked_at(g, start, finals), c, d)),
{
    let visited = trim::looked_at(g, start, finals);
    let edges = trim::edges_into_all(g, visited);
    let heads = trim::heads_of(edges).push(start) + trim::lone_finals(g, finals);
    let t = trim::trimmed(g, start, finals);
    let part = |c: N| trim::edges_into(g.parents(c), c);
    trim::law_trim_is_backwards_reachable_subgraph(g, start, finals);
    assert forall|p: N, c: N, d: N| t.has_edge(p, c) && t.has_edge(p, d) implies (
    #[trigger] order::before(t.children[p], c, d) <==> order::before(visited, c, d)) by {
        trim::lemma_edges_into_all(g, visited, p, c);
        trim::law_search_looks_at_what_leads_backwards(g, start, finals, c);
        assert(edges.contains((p, c)));
        assert(trim::heads_of(edges)[edges.index_of((p, c))] == p);
        sequences::lemma_contains_push(trim::heads_of(edges), start, p);
        sequences::lemma_contains_add(
            trim::heads_of(edges).push(start),
            trim::lone_finals(g, finals),
            p,
        );
        assert(t.children[p] == sequences::distinct(sequences::ends_of(edges, p)));
        order::lemma_before_distinct(sequences::ends_of(edges, p), c, d);
        order::lemma_before_ends(edges, p, c, d);
        if c != d {
            assert forall|x: N| #[trigger] part(x).contains((p, c)) <==> x == c by {
                lemma_edges_into(g, p, c, x);
            }
            assert forall|x: N| #[trigger] part(x).contains((p, d)) <==> x == d by {
                lemma_edges_into(g, p, d, x);
            }
            order::lemma_before_blocks(visited, part, c, d, (p, c), (p, d));
        } else {
            order::lemma_before_contains(edges, (p, c), (p, d));
            order::lemma_before_contains(visited, c, d);
        }
    }
}

/// The edges into `x` that end at `c`.
proof fn lemma_edges_into<N>(g: GraphView<N>, p: N, c: N, x: N)
    requires
        g.canonical(),
        g.has_edge(p, c),
    ensures
        trim::edges_into(g.parents(x), x).contains((p, c)) <==> x == c,
{
    let out = trim::edges_into(g.parents(x), x);
    if out.contains((p, c)) {
        assert(out[out.index_of((p, c))].1 == x);
    }
    if x == c {
        graph::lemma_parents(g, c, p);
        assert(out[g.parents(c).index_of(p)] == (p, c));
    }
}

} // verus!
