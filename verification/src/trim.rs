//! Trimming a flow graph to what leads to given nodes.

use crate::augmented;
use crate::flow;
use crate::flow::FlowGraph;
use crate::flow_laws;
use crate::graph;
use crate::graph::GraphView;
use crate::graph::SimpleDirectedGraph;
use crate::keys;
use crate::ordered::OrderedMap;
use crate::ordered::OrderedSet;
use crate::sequences;
use std::collections::HashSet;
use std::hash::Hash;
use vstd::prelude::*;

verus! {

/// The nodes of a sequence other than the start node.
pub open spec fn beyond_start<N>(s: Seq<N>, start: N) -> Seq<N> {
    s.filter(|n: N| n != start)
}

/// Edges lead from `n` to a final node.
pub open spec fn leads_backwards<N>(g: GraphView<N>, finals: Seq<N>, n: N) -> bool {
    exists|f: N| #[trigger] finals.contains(f) && g.leads(n, f)
}

/// The nodes that a backward search from `finals` has found, in the order in which it found them,
/// once it has looked at the parents of the first `k` of them. It leaves the start node aside.
pub open spec fn found<N>(g: GraphView<N>, start: N, finals: Seq<N>, k: nat) -> Seq<N>
    decreases k,
{
    if k == 0 {
        sequences::distinct(beyond_start(finals, start))
    } else {
        let queue = found(g, start, finals, (k - 1) as nat);
        if k - 1 < queue.len() {
            sequences::distinct(queue + beyond_start(g.parents(queue[k - 1]), start))
        } else {
            queue
        }
    }
}

/// All nodes that a backward search finds that leaves the start node aside, in order.
pub open spec fn sweep<N>(g: GraphView<N>, start: N, finals: Seq<N>) -> Seq<N> {
    found(g, start, finals, g.nodes.len() + finals.len())
}

/// The search comes to the start node: it is final, or it has an edge to a node that is found.
pub open spec fn comes_to_start<N>(g: GraphView<N>, start: N, finals: Seq<N>) -> bool {
    finals.contains(start) || exists|c: N| #[trigger]
        sweep(g, start, finals).contains(c) && g.has_edge(start, c)
}

/// All nodes from which edges lead to a final node, in the order in which the search looks at
/// them: what it finds without the start node, then the start node if it comes to it, then what
/// it finds from there.
pub open spec fn looked_at<N>(g: GraphView<N>, start: N, finals: Seq<N>) -> Seq<N> {
    let first = sweep(g, start, finals);
    if comes_to_start(g, start, finals) {
        first.push(start) + sweep(g, start, first + g.parents(start)).skip(first.len() as int)
    } else {
        first
    }
}

/// The edges into `child` from the given parents.
pub open spec fn edges_into<N>(parents: Seq<N>, child: N) -> Seq<(N, N)> {
    parents.map_values(|parent: N| (parent, child))
}

/// The edges into the given nodes, in order.
pub open spec fn edges_into_all<N>(g: GraphView<N>, nodes: Seq<N>) -> Seq<(N, N)> {
    nodes.flat_map(|c: N| edges_into(g.parents(c), c))
}

/// The first components of edges.
pub open spec fn heads_of<N>(edges: Seq<(N, N)>) -> Seq<N> {
    edges.map_values(|e: (N, N)| e.0)
}

/// The final nodes of the graph to which no edge leads.
pub open spec fn lone_finals<N>(g: GraphView<N>, finals: Seq<N>) -> Seq<N> {
    finals.filter(|f: N| g.nodes.contains(f) && g.parents(f).len() == 0)
}

/// The trimmed graph, with the order of its nodes and edges: the edges come in the order in which
/// the search comes to them. First come the nodes that start one of these edges, then the start
/// node, then final nodes to which no edge leads, and then the other nodes.
pub open spec fn trimmed<N>(g: GraphView<N>, start: N, finals: Seq<N>) -> GraphView<N> {
    let edges = edges_into_all(g, looked_at(g, start, finals));
    graph::gathered(heads_of(edges).push(start) + lone_finals(g, finals), edges).completed()
}

/// What the search has found is found once, is not the start node, and is a final node or a node
/// of the graph.
pub proof fn lemma_found<N>(g: GraphView<N>, start: N, finals: Seq<N>, k: nat)
    requires
        g.canonical(),
    ensures
        found(g, start, finals, k).no_duplicates(),
        found(g, start, finals, k).len() <= g.nodes.len() + finals.len(),
        forall|n: N| #[trigger]
            found(g, start, finals, k).contains(n) ==> n != start && (finals.contains(n)
                || g.nodes.contains(n)),
    decreases k,
{
    let queue = found(g, start, finals, k);
    if k == 0 {
        let first = beyond_start(finals, start);
        sequences::lemma_distinct_no_duplicates(first);
        assert forall|n: N| #[trigger] queue.contains(n) implies n != start && finals.contains(n) by {
            sequences::lemma_distinct_contains(first, n);
            sequences::lemma_filter_contains(finals, |n: N| n != start, n);
        }
    } else {
        let before = found(g, start, finals, (k - 1) as nat);
        lemma_found(g, start, finals, (k - 1) as nat);
        if k - 1 < before.len() {
            let more = beyond_start(g.parents(before[k - 1]), start);
            sequences::lemma_distinct_no_duplicates(before + more);
            assert forall|n: N| #[trigger] queue.contains(n) implies n != start && (
            finals.contains(n) || g.nodes.contains(n)) by {
                sequences::lemma_distinct_contains(before + more, n);
                sequences::lemma_contains_add(before, more, n);
                sequences::lemma_filter_contains(
                    g.parents(before[k - 1]),
                    |n: N| n != start,
                    n,
                );
                if more.contains(n) {
                    graph::lemma_parents(g, before[k - 1], n);
                    assert(g.children.contains_key(n));
                }
            }
        }
    }
    assert forall|n: N| #[trigger] queue.contains(n) implies (g.nodes + finals).contains(n) by {
        sequences::lemma_contains_add(g.nodes, finals, n);
    }
    sequences::lemma_no_longer(queue, g.nodes + finals);
}

/// Once the search has looked at everything it found, it finds nothing more.
pub proof fn lemma_found_all<N>(g: GraphView<N>, start: N, finals: Seq<N>, k: nat, l: nat)
    requires
        k <= l,
        found(g, start, finals, k).len() <= k,
    ensures
        found(g, start, finals, l) == found(g, start, finals, k),
    decreases l,
{
    if k < l {
        lemma_found_all(g, start, finals, k, (l - 1) as nat);
    }
}

/// What has been found stays where it is.
proof fn lemma_found_prefix<N>(g: GraphView<N>, start: N, finals: Seq<N>, k: nat, l: nat)
    requires
        g.canonical(),
        k <= l,
    ensures
        found(g, start, finals, k).len() <= found(g, start, finals, l).len(),
        found(g, start, finals, l).take(found(g, start, finals, k).len() as int) == found(
            g,
            start,
            finals,
            k,
        ),
    decreases l,
{
    let a = found(g, start, finals, k);
    let c = found(g, start, finals, l);
    if k == l {
        assert(c.take(a.len() as int) =~= a);
    } else {
        let b = found(g, start, finals, (l - 1) as nat);
        lemma_found_prefix(g, start, finals, k, (l - 1) as nat);
        lemma_found(g, start, finals, (l - 1) as nat);
        if l - 1 < b.len() {
            sequences::lemma_distinct_of_distinct(b);
            sequences::lemma_distinct_prefix(b, beyond_start(g.parents(b[l - 1]), start));
            assert forall|i: int| 0 <= i < a.len() implies c[i] == a[i] by {
                assert(c.take(b.len() as int)[i] == c[i]);
                assert(b.take(a.len() as int)[i] == b[i]);
            }
            assert(c.take(a.len() as int) =~= a);
        }
    }
}

/// With every node that it finds, the search finds its parents.
proof fn lemma_sweep_closed<N>(g: GraphView<N>, start: N, finals: Seq<N>, c: N, p: N)
    requires
        g.canonical(),
        sweep(g, start, finals).contains(c),
        g.has_edge(p, c),
        p != start,
    ensures
        sweep(g, start, finals).contains(p),
{
    let all = sweep(g, start, finals);
    let bound = g.nodes.len() + finals.len();
    lemma_found(g, start, finals, bound);
    let i = all.index_of(c);
    let now = found(g, start, finals, i as nat);
    let next = found(g, start, finals, (i + 1) as nat);
    lemma_found_prefix(g, start, finals, i as nat, bound);
    lemma_found_prefix(g, start, finals, (i + 1) as nat, bound);
    if i >= now.len() {
        lemma_found_all(g, start, finals, i as nat, bound);
    }
    assert(all.take(now.len() as int)[i] == now[i]);
    let more = beyond_start(g.parents(c), start);
    graph::lemma_parents(g, c, p);
    sequences::lemma_filter_contains(g.parents(c), |n: N| n != start, p);
    sequences::lemma_distinct_contains(now + more, p);
    sequences::lemma_contains_add(now, more, p);
    let j = next.index_of(p);
    assert(all.take(next.len() as int)[j] == all[j]);
}

/// The search finds the final nodes.
proof fn lemma_sweep_finals<N>(g: GraphView<N>, start: N, finals: Seq<N>, n: N)
    requires
        g.canonical(),
        finals.contains(n),
        n != start,
    ensures
        sweep(g, start, finals).contains(n),
{
    let first = found(g, start, finals, 0);
    sequences::lemma_filter_contains(finals, |n: N| n != start, n);
    sequences::lemma_distinct_contains(beyond_start(finals, start), n);
    let bound = g.nodes.len() + finals.len();
    lemma_found_prefix(g, start, finals, 0, bound);
    let j = first.index_of(n);
    assert(sweep(g, start, finals).take(first.len() as int)[j] == sweep(g, start, finals)[j]);
}

/// Everything that a search finds leads to where it began.
proof fn lemma_found_leads<N>(g: GraphView<N>, start: N, finals: Seq<N>, k: nat, n: N)
    requires
        g.canonical(),
        found(g, start, finals, k).contains(n),
    ensures
        leads_backwards(g, finals, n),
    decreases k,
{
    if k == 0 {
        sequences::lemma_distinct_contains(beyond_start(finals, start), n);
        sequences::lemma_filter_contains(finals, |m: N| m != start, n);
        flow_laws::lemma_leads_to_itself(g, n);
    } else {
        let before = found(g, start, finals, (k - 1) as nat);
        if k - 1 < before.len() {
            let c = before[k - 1];
            let more = beyond_start(g.parents(c), start);
            sequences::lemma_distinct_contains(before + more, n);
            sequences::lemma_contains_add(before, more, n);
            sequences::lemma_filter_contains(g.parents(c), |m: N| m != start, n);
            if before.contains(n) {
                lemma_found_leads(g, start, finals, (k - 1) as nat, n);
            } else {
                graph::lemma_parents(g, c, n);
                assert(before.contains(c));
                lemma_found_leads(g, start, finals, (k - 1) as nat, c);
                let f = choose|f: N| #[trigger] finals.contains(f) && g.leads(c, f);
                flow_laws::lemma_leads_before(g, n, c, f);
            }
        } else {
            lemma_found_leads(g, start, finals, (k - 1) as nat, n);
        }
    }
}

/// Where the second search begins: with all that the first found, and with the parents of the
/// start node.
pub proof fn lemma_second_search<N>(g: GraphView<N>, start: N, finals: Seq<N>)
    requires
        g.canonical(),
    ensures
        ({
            let first = sweep(g, start, finals);
            let seed = first + g.parents(start);
            &&& first.len() <= found(g, start, seed, 0).len()
            &&& found(g, start, seed, 0) == sequences::distinct(
                first + beyond_start(g.parents(start), start),
            )
            &&& found(g, start, seed, first.len()) == found(g, start, seed, 0)
            &&& first.is_prefix_of(sweep(g, start, seed))
        }),
{
    let first = sweep(g, start, finals);
    let seed = first + g.parents(start);
    let more = beyond_start(g.parents(start), start);
    let other = |n: N| n != start;
    lemma_found(g, start, finals, g.nodes.len() + finals.len());
    Seq::filter_distributes_over_add(first, g.parents(start), other);
    assert(first.filter(other) =~= first) by {
        assert forall|n: N| #[trigger] first.contains(n) implies other(n) by {}
        sequences::lemma_filter_all(first, other);
    }
    let begin = found(g, start, seed, 0);
    assert(begin == sequences::distinct(first + more));
    sequences::lemma_distinct_of_distinct(first);
    sequences::lemma_distinct_prefix(first, more);
    lemma_second_search_stale(g, start, finals, first.len());
    lemma_found_prefix(g, start, seed, 0, g.nodes.len() + seed.len());
    let all = sweep(g, start, seed);
    assert forall|i: int| 0 <= i < first.len() implies all[i] == first[i] by {
        assert(all.take(begin.len() as int)[i] == all[i]);
        assert(begin.take(first.len() as int)[i] == begin[i]);
    }
    assert(first =~= all.take(first.len() as int));
}

/// Looking once more at what the first search found adds nothing.
proof fn lemma_second_search_stale<N>(g: GraphView<N>, start: N, finals: Seq<N>, k: nat)
    requires
        g.canonical(),
        k <= sweep(g, start, finals).len(),
        sweep(g, start, finals).is_prefix_of(
            found(g, start, sweep(g, start, finals) + g.parents(start), 0),
        ),
    ensures
        found(g, start, sweep(g, start, finals) + g.parents(start), k) == found(
            g,
            start,
            sweep(g, start, finals) + g.parents(start),
            0,
        ),
    decreases k,
{
    let first = sweep(g, start, finals);
    let seed = first + g.parents(start);
    let begin = found(g, start, seed, 0);
    if k > 0 {
        lemma_second_search_stale(g, start, finals, (k - 1) as nat);
        lemma_found(g, start, seed, 0);
        let c = begin[k - 1];
        assert(c == first[k - 1]);
        assert(first.contains(c));
        let more = beyond_start(g.parents(c), start);
        assert forall|n: N| more.contains(n) implies begin.contains(n) by {
            sequences::lemma_filter_contains(g.parents(c), |m: N| m != start, n);
            graph::lemma_parents(g, c, n);
            lemma_sweep_closed(g, start, finals, c, n);
            assert(begin[first.index_of(n)] == n);
        }
        sequences::lemma_distinct_add_known(begin, more);
        sequences::lemma_distinct_of_distinct(begin);
    }
}

/// The search looks at the parents of all nodes that it looks at.
proof fn lemma_looked_at_closed<N>(g: GraphView<N>, start: N, finals: Seq<N>, c: N, p: N)
    requires
        g.canonical(),
        looked_at(g, start, finals).contains(c),
        g.has_edge(p, c),
    ensures
        looked_at(g, start, finals).contains(p),
{
    let first = sweep(g, start, finals);
    lemma_looked_at(g, start, finals, c);
    lemma_looked_at(g, start, finals, p);
    if comes_to_start(g, start, finals) {
        let seed = first + g.parents(start);
        if p != start {
            if c == start {
                graph::lemma_parents(g, start, p);
                sequences::lemma_contains_add(first, g.parents(start), p);
                lemma_sweep_finals(g, start, seed, p);
            } else {
                lemma_sweep_closed(g, start, seed, c, p);
            }
        }
    } else if p != start {
        lemma_sweep_closed(g, start, finals, c, p);
    }
}

/// What the search looks at.
proof fn lemma_looked_at<N>(g: GraphView<N>, start: N, finals: Seq<N>, n: N)
    requires
        g.canonical(),
    ensures
        looked_at(g, start, finals).contains(n) <==> if comes_to_start(g, start, finals) {
            n == start || sweep(
                g,
                start,
                sweep(g, start, finals) + g.parents(start),
            ).contains(n)
        } else {
            sweep(g, start, finals).contains(n)
        },
{
    if comes_to_start(g, start, finals) {
        let first = sweep(g, start, finals);
        let all = sweep(g, start, first + g.parents(start));
        lemma_second_search(g, start, finals);
        let rest = all.skip(first.len() as int);
        assert(all =~= first + rest);
        sequences::lemma_contains_add(first, rest, n);
        sequences::lemma_contains_push(first, start, n);
        sequences::lemma_contains_add(first.push(start), rest, n);
    }
}

/// The search looks at the first node of every path to a final node.
proof fn lemma_path_looked_at<N>(g: GraphView<N>, start: N, finals: Seq<N>, p: Seq<N>)
    requires
        g.canonical(),
        p.len() > 0,
        g.is_path(p),
        finals.contains(p.last()),
    ensures
        looked_at(g, start, finals).contains(p[0]),
    decreases p.len(),
{
    let n = p[0];
    if p.len() == 1 {
        lemma_looked_at(g, start, finals, n);
        if n != start {
            let first = sweep(g, start, finals);
            lemma_sweep_finals(g, start, finals, n);
            if comes_to_start(g, start, finals) {
                lemma_second_search(g, start, finals);
                let all = sweep(g, start, first + g.parents(start));
                assert(all[first.index_of(n)] == n);
            }
        }
    } else {
        let q = p.skip(1);
        assert(q.last() == p.last());
        assert forall|i: int| 0 <= i < q.len() - 1 implies #[trigger] g.follows_edge(q, i) by {
            assert(g.follows_edge(p, i + 1));
        }
        lemma_path_looked_at(g, start, finals, q);
        assert(g.follows_edge(p, 0));
        lemma_looked_at_closed(g, start, finals, q[0], n);
    }
}

/// The search looks at exactly those nodes from which edges lead to a final node.
pub proof fn law_search_looks_at_what_leads_backwards<N>(
    g: GraphView<N>,
    start: N,
    finals: Seq<N>,
    n: N,
)
    requires
        g.canonical(),
    ensures
        looked_at(g, start, finals).contains(n) <==> leads_backwards(g, finals, n),
{
    if leads_backwards(g, finals, n) {
        let f = choose|f: N| #[trigger] finals.contains(f) && g.leads(n, f);
        let p = choose|p: Seq<N>| g.is_path_between(p, n, f);
        lemma_path_looked_at(g, start, finals, p);
    }
    if looked_at(g, start, finals).contains(n) {
        let first = sweep(g, start, finals);
        lemma_looked_at(g, start, finals, n);
        if comes_to_start(g, start, finals) {
            lemma_start_leads_backwards(g, start, finals);
            if n != start {
                let seed = first + g.parents(start);
                lemma_found_leads(g, start, seed, g.nodes.len() + seed.len(), n);
                let f = choose|f: N| #[trigger] seed.contains(f) && g.leads(n, f);
                sequences::lemma_contains_add(first, g.parents(start), f);
                if first.contains(f) {
                    lemma_found_leads(g, start, finals, g.nodes.len() + finals.len(), f);
                    let e = choose|e: N| #[trigger] finals.contains(e) && g.leads(f, e);
                    flow_laws::lemma_leads_on(g, n, f, e);
                } else {
                    graph::lemma_parents(g, start, f);
                    let e = choose|e: N| #[trigger] finals.contains(e) && g.leads(start, e);
                    flow_laws::lemma_leads_before(g, f, start, e);
                    flow_laws::lemma_leads_on(g, n, f, e);
                }
            }
        } else {
            lemma_found_leads(g, start, finals, g.nodes.len() + finals.len(), n);
        }
    }
}

/// If the search comes to the start node, that leads to a final node.
proof fn lemma_start_leads_backwards<N>(g: GraphView<N>, start: N, finals: Seq<N>)
    requires
        g.canonical(),
        comes_to_start(g, start, finals),
    ensures
        leads_backwards(g, finals, start),
{
    if finals.contains(start) {
        flow_laws::lemma_leads_to_itself(g, start);
    } else {
        let c = choose|c: N| #[trigger] sweep(g, start, finals).contains(c) && g.has_edge(start, c);
        lemma_found_leads(g, start, finals, g.nodes.len() + finals.len(), c);
        let f = choose|f: N| #[trigger] finals.contains(f) && g.leads(c, f);
        flow_laws::lemma_leads_before(g, start, c, f);
    }
}

/// The edges into some nodes are the edges of the graph that end at one of them.
pub proof fn lemma_edges_into_all<N>(g: GraphView<N>, nodes: Seq<N>, p: N, c: N)
    requires
        g.canonical(),
    ensures
        edges_into_all(g, nodes).contains((p, c)) <==> g.has_edge(p, c) && nodes.contains(c),
{
    let part = |c: N| edges_into(g.parents(c), c);
    sequences::lemma_flat_contains(nodes, part, (p, c));
    graph::lemma_parents(g, c, p);
    if nodes.contains(c) && g.has_edge(p, c) {
        assert(part(c)[g.parents(c).index_of(p)] == (p, c));
        assert(part(c).contains((p, c)));
    }
    if edges_into_all(g, nodes).contains((p, c)) {
        let d = choose|d: N| nodes.contains(d) && #[trigger] part(d).contains((p, c));
        let k = part(d).index_of((p, c));
        assert(g.parents(d)[k] == p && d == c);
    }
}

/// Trimming gives the subgraph that is backwards reachable from the final nodes, and the start
/// node: it has exactly the edges to nodes that lead to a final node, and exactly the nodes of the
/// graph that do, besides the start node.
pub proof fn law_trim_is_backwards_reachable_subgraph<N>(
    g: GraphView<N>,
    start: N,
    finals: Seq<N>,
)
    requires
        g.canonical(),
    ensures
        trimmed(g, start, finals).canonical(),
        forall|p: N, c: N| #[trigger]
            trimmed(g, start, finals).has_edge(p, c) <==> g.has_edge(p, c) && leads_backwards(
                g,
                finals,
                c,
            ),
        forall|n: N| #[trigger]
            trimmed(g, start, finals).nodes.contains(n) <==> n == start || g.nodes.contains(n)
                && leads_backwards(g, finals, n),
{
    let edges = edges_into_all(g, looked_at(g, start, finals));
    let lone = lone_finals(g, finals);
    let heads = heads_of(edges).push(start) + lone;
    let h = graph::gathered(heads, edges);
    let t = trimmed(g, start, finals);
    graph::lemma_gathered_edges(heads, edges);
    sequences::lemma_distinct_no_duplicates(heads);
    assert forall|n: N| #[trigger] h.children.contains_key(n) <==> h.nodes.contains(n) by {
        sequences::lemma_distinct_contains(heads, n);
    }
    assert forall|n: N| #[trigger] h.children.contains_key(n) implies h.children[
        n
    ].no_duplicates() by {
        sequences::lemma_distinct_no_duplicates(sequences::ends_of(edges, n));
    }
    graph::lemma_completed_canonical(h);
    assert forall|p: N, c: N| #[trigger] edges.contains((p, c)) <==> g.has_edge(p, c)
        && leads_backwards(g, finals, c) by {
        lemma_edges_into_all(g, looked_at(g, start, finals), p, c);
        law_search_looks_at_what_leads_backwards(g, start, finals, c);
    }
    assert forall|n: N| #[trigger] heads.contains(n) <==> n == start || lone.contains(n)
        || exists|m: N| #[trigger] edges.contains((n, m)) by {
        sequences::lemma_contains_push(heads_of(edges), start, n);
        sequences::lemma_contains_add(heads_of(edges).push(start), lone, n);
        if heads_of(edges).contains(n) {
            let k = heads_of(edges).index_of(n);
            assert(edges.contains((n, edges[k].1)));
        }
        if exists|m: N| #[trigger] edges.contains((n, m)) {
            let m = choose|m: N| #[trigger] edges.contains((n, m));
            assert(heads_of(edges)[edges.index_of((n, m))] == n);
        }
    }
    assert forall|p: N, c: N| #[trigger] t.has_edge(p, c) <==> g.has_edge(p, c)
        && leads_backwards(g, finals, c) by {
        assert(t.has_edge(p, c) <==> h.has_edge(p, c));
        if edges.contains((p, c)) {
            assert(heads.contains(p));
        }
    }
    assert forall|n: N| #[trigger] t.nodes.contains(n) <==> n == start || g.nodes.contains(n)
        && leads_backwards(g, finals, n) by {
        sequences::lemma_filter_contains(
            finals,
            |f: N| g.nodes.contains(f) && g.parents(f).len() == 0,
            n,
        );
        if t.nodes.contains(n) && n != start {
            if lone.contains(n) {
                flow_laws::lemma_leads_to_itself(g, n);
            } else if heads.contains(n) {
                let m = choose|m: N| #[trigger] edges.contains((n, m));
                let f = choose|f: N| #[trigger] finals.contains(f) && g.leads(m, f);
                flow_laws::lemma_leads_before(g, n, m, f);
                assert(g.children.contains_key(n));
            } else {
                let p = choose|p: N| #[trigger] h.has_edge(p, n);
                assert(edges.contains((p, n)));
            }
        }
        if g.nodes.contains(n) && leads_backwards(g, finals, n) {
            lemma_has_kept_edge(g, finals, n);
            if exists|c: N| #[trigger] g.has_edge(n, c) && leads_backwards(g, finals, c) {
                let c = choose|c: N| #[trigger] g.has_edge(n, c) && leads_backwards(g, finals, c);
                assert(edges.contains((n, c)));
                assert(heads.contains(n));
            } else if g.parents(n).len() > 0 {
                let p = g.parents(n)[0];
                assert(g.parents(n).contains(p));
                graph::lemma_parents(g, n, p);
                assert(edges.contains((p, n)));
                assert(heads.contains(p));
                assert(h.has_edge(p, n));
            } else {
                assert(heads.contains(n));
            }
        }
    }
}

/// A node that leads to a final node is one, or has a child that leads to one.
proof fn lemma_has_kept_edge<N>(g: GraphView<N>, finals: Seq<N>, n: N)
    requires
        leads_backwards(g, finals, n),
    ensures
        finals.contains(n) || exists|c: N| #[trigger]
            g.has_edge(n, c) && leads_backwards(g, finals, c),
{
    let f = choose|f: N| #[trigger] finals.contains(f) && g.leads(n, f);
    let p = choose|p: Seq<N>| g.is_path_between(p, n, f);
    if p.len() > 1 {
        let q = p.skip(1);
        assert forall|i: int| 0 <= i < q.len() - 1 implies #[trigger] g.follows_edge(q, i) by {
            assert(g.follows_edge(p, i + 1));
        }
        assert(q.last() == p.last());
        assert(g.is_path_between(q, q[0], f));
        assert(g.follows_edge(p, 0));
        assert(finals.contains(f) && g.leads(q[0], f));
        assert(g.has_edge(n, q[0]) && leads_backwards(g, finals, q[0]));
    }
}

/// A path to a final node is there in the trimmed graph as well.
proof fn lemma_path_kept<N>(g: GraphView<N>, t: GraphView<N>, finals: Seq<N>, p: Seq<N>)
    requires
        forall|a: N, b: N| #[trigger]
            t.has_edge(a, b) <==> g.has_edge(a, b) && leads_backwards(g, finals, b),
        p.len() > 0,
        leads_backwards(g, finals, p.last()),
        g.is_path(p),
    ensures
        t.is_path(p),
    decreases p.len(),
{
    if p.len() > 1 {
        let q = p.drop_last();
        assert forall|i: int| 0 <= i < q.len() - 1 implies #[trigger] g.follows_edge(q, i) by {
            assert(g.follows_edge(p, i));
        }
        assert(g.follows_edge(p, p.len() - 2));
        let f = choose|f: N| #[trigger] finals.contains(f) && g.leads(p.last(), f);
        flow_laws::lemma_leads_before(g, q.last(), p.last(), f);
        lemma_path_kept(g, t, finals, q);
        assert forall|i: int| 0 <= i < p.len() - 1 implies #[trigger] t.follows_edge(p, i) by {
            if i < q.len() - 1 {
                assert(t.follows_edge(q, i));
            }
        }
    }
}

/// A path of the trimmed graph is a path of the graph.
proof fn lemma_path_was_there<N>(g: GraphView<N>, t: GraphView<N>, finals: Seq<N>, p: Seq<N>)
    requires
        forall|a: N, b: N| #[trigger]
            t.has_edge(a, b) <==> g.has_edge(a, b) && leads_backwards(g, finals, b),
        t.is_path(p),
    ensures
        g.is_path(p),
{
    assert forall|i: int| 0 <= i < p.len() - 1 implies #[trigger] g.follows_edge(p, i) by {
        assert(t.follows_edge(p, i));
    }
}

/// In the trimmed graph, edges lead to a node that leads to a final node exactly as they did.
proof fn lemma_leads_kept<N>(g: GraphView<N>, t: GraphView<N>, finals: Seq<N>, a: N, b: N)
    requires
        forall|a: N, b: N| #[trigger]
            t.has_edge(a, b) <==> g.has_edge(a, b) && leads_backwards(g, finals, b),
        leads_backwards(g, finals, b),
    ensures
        t.leads(a, b) <==> g.leads(a, b),
{
    if g.leads(a, b) {
        let p = choose|p: Seq<N>| g.is_path_between(p, a, b);
        lemma_path_kept(g, t, finals, p);
        assert(t.is_path_between(p, a, b));
    }
    if t.leads(a, b) {
        let p = choose|p: Seq<N>| t.is_path_between(p, a, b);
        lemma_path_was_there(g, t, finals, p);
        assert(g.is_path_between(p, a, b));
    }
}

/// Trimming a trimmed graph to the same final nodes changes neither nodes nor edges.
pub proof fn law_trim_twice<N>(g: GraphView<N>, start: N, finals: Seq<N>)
    requires
        g.canonical(),
    ensures
        trimmed(trimmed(g, start, finals), start, finals).same_as(trimmed(g, start, finals)),
{
    let t = trimmed(g, start, finals);
    law_trim_is_backwards_reachable_subgraph(g, start, finals);
    law_trim_is_backwards_reachable_subgraph(t, start, finals);
    assert forall|n: N| #[trigger] leads_backwards(g, finals, n) implies leads_backwards(
        t,
        finals,
        n,
    ) by {
        let f = choose|f: N| #[trigger] finals.contains(f) && g.leads(n, f);
        flow_laws::lemma_leads_to_itself(g, f);
        lemma_leads_kept(g, t, finals, n, f);
    }
}

/// A walk to a node that leads to a final node is there in the trimmed graph as well.
proof fn lemma_walk_kept<N>(
    g: GraphView<N>,
    t: GraphView<N>,
    start: N,
    finals: Seq<N>,
    w: Seq<Option<N>>,
    n: N,
)
    requires
        forall|a: N, b: N| #[trigger]
            t.has_edge(a, b) <==> g.has_edge(a, b) && leads_backwards(g, finals, b),
        leads_backwards(g, finals, n),
    ensures
        flow::entered(g, start).walk_to(w, Some(n)) <==> flow::entered(t, start).walk_to(
            w,
            Some(n),
        ),
    decreases w.len(),
{
    let hg = flow::entered(g, start);
    let ht = flow::entered(t, start);
    if hg.walk_to(w, Some(n)) {
        assert forall|i: int| 0 <= i < w.len() - 1 implies #[trigger] ht.step(w, i) by {
            lemma_walk_leads_backwards(g, start, finals, w, n, i + 1);
            assert(hg.step(w, i));
        }
    }
    if ht.walk_to(w, Some(n)) {
        assert forall|i: int| 0 <= i < w.len() - 1 implies #[trigger] hg.step(w, i) by {
            assert(ht.step(w, i));
        }
    }
}

/// All nodes on a walk to a node that leads to a final node do so.
proof fn lemma_walk_leads_backwards<N>(
    g: GraphView<N>,
    start: N,
    finals: Seq<N>,
    w: Seq<Option<N>>,
    n: N,
    i: int,
)
    requires
        leads_backwards(g, finals, n),
        flow::entered(g, start).walk_to(w, Some(n)),
        0 < i < w.len(),
    ensures
        w[i] is Some,
        leads_backwards(g, finals, w[i]->0),
    decreases w.len() - i,
{
    let h = flow::entered(g, start);
    assert(h.step(w, i - 1));
    if i < w.len() - 1 {
        lemma_walk_leads_backwards(g, start, finals, w, n, i + 1);
        assert(h.step(w, i));
        let next = w[i + 1]->0;
        let f = choose|f: N| #[trigger] finals.contains(f) && g.leads(next, f);
        flow_laws::lemma_leads_before(g, w[i]->0, next, f);
    }
}

/// Among nodes that lead to final nodes, trimming does not change which dominates which.
proof fn lemma_dominates_kept<N>(
    g: GraphView<N>,
    t: GraphView<N>,
    start: N,
    finals: Seq<N>,
    z: Option<N>,
    n: N,
)
    requires
        forall|a: N, b: N| #[trigger]
            t.has_edge(a, b) <==> g.has_edge(a, b) && leads_backwards(g, finals, b),
        leads_backwards(g, finals, n),
    ensures
        flow::entered(g, start).dominates(z, Some(n)) <==> flow::entered(t, start).dominates(
            z,
            Some(n),
        ),
{
    let hg = flow::entered(g, start);
    let ht = flow::entered(t, start);
    let end = Some(n);
    assert forall|w: Seq<Option<N>>| #[trigger] hg.walk_to(w, end) <==> ht.walk_to(w, end) by {
        lemma_walk_kept(g, t, start, finals, w, n);
    }
    if hg.reachable(end) {
        let w = choose|w: Seq<Option<N>>| hg.walk_to(w, end);
        assert(ht.walk_to(w, end));
    }
    if ht.reachable(end) {
        let w = choose|w: Seq<Option<N>>| ht.walk_to(w, end);
        assert(hg.walk_to(w, end));
    }
    if hg.on_all_walks(z, end) {
        assert forall|w: Seq<Option<N>>| #[trigger] ht.walk_to(w, end) implies w.contains(z) by {
            assert(hg.walk_to(w, end));
        }
    }
}

/// Trimming to the final nodes leaves their closest common dominator as it was.
pub proof fn law_trim_keeps_closest_common_dominator<N>(
    flow_graph: FlowGraph<N>,
    trimmed_graph: FlowGraph<N>,
    finals: Seq<N>,
    result: Option<N>,
)
    requires
        flow_graph.wf(),
        flow_graph.graph@.nodes.contains(flow_graph.start_node),
        trimmed_graph.graph@ == trimmed(flow_graph.graph@, flow_graph.start_node, finals),
        trimmed_graph.start_node == flow_graph.start_node,
    ensures
        trimmed_graph.is_answer(finals, result) <==> flow_graph.is_answer(finals, result),
{
    let g = flow_graph.graph@;
    let t = trimmed_graph.graph@;
    let start = flow_graph.start_node;
    let hg = flow_graph.entered();
    let ht = trimmed_graph.entered();
    let targets = augmented::targets_of(finals);
    law_trim_is_backwards_reachable_subgraph(g, start, finals);
    assert forall|i: int| 0 <= i < finals.len() implies leads_backwards(
        g,
        finals,
        #[trigger] finals[i],
    ) && (t.leads(start, finals[i]) <==> g.leads(start, finals[i])) && (t.nodes.contains(finals[i])
        <==> g.nodes.contains(finals[i])) by {
        flow_laws::lemma_leads_to_itself(g, finals[i]);
        assert(finals.contains(finals[i]));
        assert(leads_backwards(g, finals, finals[i]));
        lemma_leads_kept(g, t, finals, start, finals[i]);
    }
    assert(flow_graph.leads_to_all(finals) <==> trimmed_graph.leads_to_all(finals));
    if flow_graph.leads_to_all(finals) {
        assert(finals.contains(finals[0]));
        assert(targets.contains(Some(finals[0])));
        assert forall|w: Option<N>|
            #![trigger hg.is_common_dominator(targets, w)]
            #![trigger ht.is_common_dominator(targets, w)]
            hg.is_common_dominator(targets, w) <==> ht.is_common_dominator(targets, w) by {
            assert forall|u: Option<N>| #[trigger] targets.contains(u) implies (hg.dominates(w, u)
                <==> ht.dominates(w, u)) by {
                let i = finals.index_of(u->0);
                assert(leads_backwards(g, finals, finals[i]));
                lemma_dominates_kept(g, t, start, finals, w, u->0);
            }
        }
        assert forall|w: Option<N>, z: Option<N>|
            hg.is_common_dominator(targets, w) implies (#[trigger] hg.strictly_dominates(z, w)
            <==> ht.strictly_dominates(z, w)) by {
            assert(hg.dominates(w, Some(finals[0])));
            assert(g.leads(start, finals[0]));
            flow_laws::lemma_reachable_is_led_to(g, start, finals[0]);
            let end = Some(finals[0]);
            let p = choose|p: Seq<Option<N>>| hg.walk_to(p, end);
            let i = p.index_of(w);
            if i > 0 {
                assert(leads_backwards(g, finals, finals[0]));
                lemma_walk_leads_backwards(g, start, finals, p, finals[0], i);
                lemma_dominates_kept(g, t, start, finals, z, w->0);
            } else {
                if hg.dominates(z, None) {
                    hg.lemma_dominators_of_root(z);
                }
                if ht.dominates(z, None) {
                    ht.lemma_dominators_of_root(z);
                }
            }
        }
        if result is Some {
            assert(hg.is_closest_common_dominator(targets, result)
                <==> ht.is_closest_common_dominator(targets, result)) by {
                if hg.is_closest_common_dominator(targets, result) {
                    assert forall|w: Option<N>| #[trigger] ht.is_common_dominator(
                        targets,
                        w,
                    ) implies !ht.strictly_dominates(result, w) by {
                        assert(hg.is_common_dominator(targets, w));
                        assert(!hg.strictly_dominates(result, w));
                    }
                }
                if ht.is_closest_common_dominator(targets, result) {
                    assert forall|w: Option<N>| #[trigger] hg.is_common_dominator(
                        targets,
                        w,
                    ) implies !hg.strictly_dominates(result, w) by {
                        assert(ht.is_common_dominator(targets, w));
                        assert(!ht.strictly_dominates(result, w));
                    }
                }
            }
        }
    }
}

/// The reversed graph lists the parents of every node; what is no node has none.
proof fn lemma_parents_listed<N>(g: GraphView<N>, n: N)
    requires
        g.canonical(),
    ensures
        g.reversed().children.contains_key(n) ==> g.reversed().children[n] == g.parents(n),
        !g.reversed().children.contains_key(n) ==> g.parents(n).len() == 0,
{
    if !g.nodes.contains(n) && g.parents(n).len() > 0 {
        let p = g.parents(n)[0];
        assert(g.parents(n).contains(p));
        graph::lemma_parents(g, n, p);
        assert(g.has_edge(p, n));
    }
}

/// What has been found and what has been visited agree, but for the start node.
spec fn in_step<N>(queue: Seq<N>, visited: Set<N>, start: N) -> bool {
    forall|n: N| n != start ==> (#[trigger] queue.contains(n) <==> visited.contains(n))
}

/// Looks at the parents of `child`: puts the edges from them into `adj`, and those that were not
/// visited at the end of the queue, but for the start node.
fn look_at_parents<N: Hash + Eq + Clone>(
    rev_adj: &OrderedMap<N, OrderedSet<N>>,
    child: &N,
    start_node: &N,
    to_visit: &mut Vec<N>,
    visited: &mut HashSet<N>,
    adj: &mut OrderedMap<N, OrderedSet<N>>,
    Ghost(g): Ghost<GraphView<N>>,
    Ghost(edges): Ghost<Seq<(N, N)>>,
)
    requires
        keys::key_model::<N>(),
        g.canonical(),
        rev_adj.wf(),
        graph::adjacency(*rev_adj) == g.reversed(),
        old(to_visit)@.no_duplicates(),
        in_step(old(to_visit)@, old(visited)@, *start_node),
        graph::gathers(*old(adj), heads_of(edges), edges),
    ensures
        final(to_visit)@ == sequences::distinct(
            old(to_visit)@ + beyond_start(g.parents(*child), *start_node),
        ),
        in_step(final(to_visit)@, final(visited)@, *start_node),
        final(visited)@.contains(*start_node) <==> old(visited)@.contains(*start_node)
            || g.has_edge(*start_node, *child),
        graph::gathers(
            *final(adj),
            heads_of(edges + edges_into(g.parents(*child), *child)),
            edges + edges_into(g.parents(*child), *child),
        ),
{
    broadcast use vstd::std_specs::hash::group_hash_axioms;

    let ghost start = *start_node;
    let ghost queue = to_visit@;
    let ghost parents = g.parents(*child);
    let ghost had_start = visited@.contains(start);
    proof {
        lemma_parents_listed(g, *child);
        graph::lemma_parents(g, *child, start);
        sequences::lemma_distinct_of_distinct(queue);
        reveal(Seq::filter);
        assert(beyond_start(Seq::<N>::empty(), start) =~= Seq::<N>::empty());
        assert(queue + Seq::<N>::empty() =~= queue);
        assert(edges + edges_into(Seq::<N>::empty(), *child) =~= edges);
    }
    if let Some(parents_set) = rev_adj.get(child) {
        let mut j: usize = 0;
        proof {
            assert(g.reversed().children.contains_key(*child));
            assert(parents_set@ == parents);
            assert(parents.take(0) =~= Seq::<N>::empty());
        }
        while j < parents_set.len()
            invariant
                keys::key_model::<N>(),
                start == *start_node,
                parents_set@ == parents,
                0 <= j <= parents.len(),
                to_visit@ == sequences::distinct(
                    queue + beyond_start(parents.take(j as int), start),
                ),
                graph::gathers(
                    *adj,
                    heads_of(edges + edges_into(parents.take(j as int), *child)),
                    edges + edges_into(parents.take(j as int), *child),
                ),
                in_step(to_visit@, visited@, start),
                visited@.contains(start) <==> had_start || parents.take(j as int).contains(start),
            decreases parents.len() - j,
        {
            match parents_set.get_index(j) {
                Some(parent) => {
                    let ghost before = parents.take(j as int);
                    let ghost sofar = edges + edges_into(before, *child);
                    let ghost old_queue = to_visit@;
                    let ghost old_visited = visited@;
                    proof {
                        let beyond = beyond_start(before, start);
                        assert(parents.take(j + 1) =~= before.push(*parent));
                        before.lemma_filter_push(*parent, |m: N| m != start);
                        sequences::lemma_contains_push(before, *parent, start);
                        assert(queue + beyond.push(*parent) =~= (queue + beyond).push(*parent));
                        sequences::lemma_distinct_push(queue + beyond, *parent);
                        sequences::lemma_distinct_contains(queue + beyond, *parent);
                        assert(edges + edges_into(before.push(*parent), *child) =~= sofar.push(
                            (*parent, *child),
                        ));
                        assert(heads_of(sofar.push((*parent, *child))) =~= heads_of(sofar).push(
                            *parent,
                        ));
                    }
                    graph::link(
                        adj,
                        keys::copy_key(parent),
                        keys::copy_key(child),
                        Ghost(heads_of(sofar)),
                        Ghost(sofar),
                    );
                    let is_new = visited.insert(keys::copy_key(parent));
                    if is_new && !keys::same_key(parent, start_node) {
                        to_visit.push(keys::copy_key(parent));
                    }
                    proof {
                        assert forall|n: N| n != start implies (#[trigger] to_visit@.contains(n)
                            <==> visited@.contains(n)) by {
                            sequences::lemma_contains_push(old_queue, *parent, n);
                            assert(old_queue.contains(n) <==> old_visited.contains(n));
                        }
                    }
                },
                None => {},
            }
            j += 1;
        }
        assert(parents.take(j as int) =~= parents);
    } else {
        proof {
            assert(!g.reversed().children.contains_key(*child));
            assert(parents =~= Seq::<N>::empty());
        }
    }
}

/// Looks at the parents of all nodes of the queue from position `from` on, and of those that are
/// found by that.
fn look_back<N: Hash + Eq + Clone>(
    rev_adj: &OrderedMap<N, OrderedSet<N>>,
    start_node: &N,
    to_visit: &mut Vec<N>,
    visited: &mut HashSet<N>,
    adj: &mut OrderedMap<N, OrderedSet<N>>,
    from: usize,
    Ghost(g): Ghost<GraphView<N>>,
    Ghost(seed): Ghost<Seq<N>>,
    Ghost(edges): Ghost<Seq<(N, N)>>,
)
    requires
        keys::key_model::<N>(),
        g.canonical(),
        rev_adj.wf(),
        graph::adjacency(*rev_adj) == g.reversed(),
        from <= old(to_visit)@.len(),
        old(to_visit)@ == found(g, *start_node, seed, from as nat),
        in_step(old(to_visit)@, old(visited)@, *start_node),
        graph::gathers(*old(adj), heads_of(edges), edges),
    ensures
        final(to_visit)@ == sweep(g, *start_node, seed),
        from <= final(to_visit)@.len(),
        in_step(final(to_visit)@, final(visited)@, *start_node),
        final(visited)@.contains(*start_node) <==> old(visited)@.contains(*start_node) || exists|
            j: int,
        |
            from <= j < final(to_visit)@.len() && g.has_edge(
                *start_node,
                #[trigger] final(to_visit)@[j],
            ),
        graph::gathers(
            *final(adj),
            heads_of(edges + edges_into_all(g, final(to_visit)@.skip(from as int))),
            edges + edges_into_all(g, final(to_visit)@.skip(from as int)),
        ),
{
    let ghost start = *start_node;
    let ghost had_start = visited@.contains(start);
    let mut k: usize = from;
    proof {
        lemma_found(g, start, seed, from as nat);
        let none = to_visit@.subrange(from as int, from as int);
        assert(edges + edges_into_all(g, none) =~= edges);
    }
    while k < to_visit.len()
        invariant
            keys::key_model::<N>(),
            g.canonical(),
            start == *start_node,
            rev_adj.wf(),
            graph::adjacency(*rev_adj) == g.reversed(),
            from <= k <= to_visit@.len(),
            to_visit@ == found(g, start, seed, k as nat),
            to_visit@.len() <= g.nodes.len() + seed.len(),
            in_step(to_visit@, visited@, start),
            visited@.contains(start) <==> had_start || exists|j: int|
                from <= j < k && g.has_edge(start, #[trigger] to_visit@[j]),
            graph::gathers(
                *adj,
                heads_of(edges + edges_into_all(g, to_visit@.subrange(from as int, k as int))),
                edges + edges_into_all(g, to_visit@.subrange(from as int, k as int)),
            ),
        decreases g.nodes.len() + seed.len() - k,
    {
        let child = keys::copy_key(&to_visit[k]);
        let ghost queue = to_visit@;
        let ghost part = queue.subrange(from as int, k as int);
        let ghost seen_start = visited@.contains(start);
        proof {
            lemma_found(g, start, seed, k as nat);
        }
        look_at_parents(
            rev_adj,
            &child,
            start_node,
            to_visit,
            visited,
            adj,
            Ghost(g),
            Ghost(edges + edges_into_all(g, part)),
        );
        proof {
            lemma_found(g, start, seed, (k + 1) as nat);
            lemma_found_prefix(g, start, seed, k as nat, (k + 1) as nat);
            assert(to_visit@ == found(g, start, seed, (k + 1) as nat));
            assert forall|j: int| 0 <= j < queue.len() implies to_visit@[j] == queue[j] by {
                assert(to_visit@.take(queue.len() as int)[j] == to_visit@[j]);
            }
            assert(to_visit@.subrange(from as int, k + 1) =~= part.push(child));
            part.lemma_flat_map_push(|c: N| edges_into(g.parents(c), c), child);
            assert(edges + edges_into_all(g, part.push(child)) =~= edges + edges_into_all(g, part)
                + edges_into(g.parents(child), child));
            lemma_start_seen(g, start, queue, to_visit@, from as int, k as int);
        }
        k += 1;
    }
    proof {
        lemma_found_all(g, start, seed, k as nat, g.nodes.len() + seed.len());
        assert(to_visit@.subrange(from as int, k as int) =~= to_visit@.skip(from as int));
    }
}

/// The start node has an edge to one of the first nodes of a queue, or to the next.
proof fn lemma_start_seen<N>(
    g: GraphView<N>,
    start: N,
    before: Seq<N>,
    after: Seq<N>,
    from: int,
    k: int,
)
    requires
        0 <= from <= k < before.len() <= after.len(),
        forall|j: int| 0 <= j < before.len() ==> after[j] == before[j],
    ensures
        (exists|j: int| from <= j < k + 1 && g.has_edge(start, #[trigger] after[j])) <==> (exists|
            j: int,
        |
            from <= j < k && g.has_edge(start, #[trigger] before[j])) || g.has_edge(
            start,
            before[k],
        ),
{
    if exists|j: int| from <= j < k && g.has_edge(start, #[trigger] before[j]) {
        let j = choose|j: int| from <= j < k && g.has_edge(start, #[trigger] before[j]);
        assert(g.has_edge(start, after[j]));
    }
    if g.has_edge(start, before[k]) {
        assert(g.has_edge(start, after[k]));
    }
    if exists|j: int| from <= j < k + 1 && g.has_edge(start, #[trigger] after[j]) {
        let j = choose|j: int| from <= j < k + 1 && g.has_edge(start, #[trigger] after[j]);
        assert(g.has_edge(start, before[j]));
    }
}

/// Puts the final nodes to which no edge leads into an adjacency map.
fn enter_lone_finals<N: Hash + Eq + Clone>(
    rev_adj: &OrderedMap<N, OrderedSet<N>>,
    final_nodes: &[N],
    adj: &mut OrderedMap<N, OrderedSet<N>>,
    Ghost(g): Ghost<GraphView<N>>,
    Ghost(heads): Ghost<Seq<N>>,
    Ghost(edges): Ghost<Seq<(N, N)>>,
)
    requires
        keys::key_model::<N>(),
        g.canonical(),
        rev_adj.wf(),
        graph::adjacency(*rev_adj) == g.reversed(),
        graph::gathers(*old(adj), heads, edges),
    ensures
        graph::gathers(*final(adj), heads + lone_finals(g, final_nodes@), edges),
{
    let ghost finals = final_nodes@;
    let ghost is_lone = |f: N| g.nodes.contains(f) && g.parents(f).len() == 0;
    let mut i: usize = 0;
    proof {
        reveal(Seq::filter);
        assert(heads + lone_finals(g, finals.take(0)) =~= heads);
    }
    while i < final_nodes.len()
        invariant
            keys::key_model::<N>(),
            g.canonical(),
            rev_adj.wf(),
            graph::adjacency(*rev_adj) == g.reversed(),
            finals == final_nodes@,
            is_lone == (|f: N| g.nodes.contains(f) && g.parents(f).len() == 0),
            0 <= i <= finals.len(),
            graph::gathers(*adj, heads + lone_finals(g, finals.take(i as int)), edges),
        decreases finals.len() - i,
    {
        let final_node = &final_nodes[i];
        let ghost before = finals.take(i as int);
        proof {
            lemma_parents_listed(g, *final_node);
            assert(finals.take(i + 1) =~= before.push(*final_node));
            before.lemma_filter_push(*final_node, is_lone);
            let lone = lone_finals(g, before);
            assert(heads + lone.push(*final_node) =~= (heads + lone).push(*final_node));
            assert(g.reversed().children.contains_key(*final_node) <==> g.nodes.contains(
                *final_node,
            ));
        }
        if let Some(parents) = rev_adj.get(final_node) {
            assert(g.reversed().children.contains_key(*final_node));
            assert(parents@ == g.parents(*final_node));
            if parents.len() == 0 {
                graph::enter(
                    adj,
                    keys::copy_key(final_node),
                    Ghost(heads + lone_finals(g, before)),
                    Ghost(edges),
                );
            }
        } else {
            assert(!g.reversed().children.contains_key(*final_node));
        }
        i += 1;
    }
    assert(finals.take(i as int) =~= finals);
}

impl<N: Hash + Eq + Clone> FlowGraph<N> {
    /// Trims the graph to the subgraph that is backwards reachable from the final nodes, with the
    /// same start node, whether or not that is backwards reachable from the final nodes.
    pub fn trim(self, final_nodes: &[N]) -> (result: Self)
        requires
            keys::key_model::<N>(),
            self.wf(),
        ensures
            result.wf(),
            result.start_node == self.start_node,
            forall|p: N, c: N| #[trigger]
                result.graph@.has_edge(p, c) <==> self.graph@.has_edge(p, c) && leads_backwards(
                    self.graph@,
                    final_nodes@,
                    c,
                ),
            forall|n: N| #[trigger]
                result.graph@.nodes.contains(n) <==> n == self.start_node
                    || self.graph@.nodes.contains(n) && leads_backwards(
                    self.graph@,
                    final_nodes@,
                    n,
                ),
            result.graph@ == trimmed(self.graph@, self.start_node, final_nodes@),
    {
        broadcast use vstd::std_specs::hash::group_hash_axioms;

        let ghost g = self.graph@;
        let ghost start = self.start_node;
        let ghost finals = final_nodes@;
        let start_node = &self.start_node;
        let reversed = self.graph.reverse();
        let rev_adj = reversed.adj();

        let mut to_visit: Vec<N> = Vec::new();
        let mut visited: HashSet<N> = HashSet::new();
        let mut adj: OrderedMap<N, OrderedSet<N>> = OrderedMap::new();

        let mut i: usize = 0;
        proof {
            reveal(Seq::filter);
            assert(beyond_start(finals.take(0), start) =~= Seq::<N>::empty());
        }
        while i < final_nodes.len()
            invariant
                keys::key_model::<N>(),
                start == *start_node,
                finals == final_nodes@,
                0 <= i <= finals.len(),
                to_visit@ == sequences::distinct(beyond_start(finals.take(i as int), start)),
                forall|n: N| #[trigger]
                    visited@.contains(n) <==> finals.take(i as int).contains(n),
            decreases finals.len() - i,
        {
            let ghost before = finals.take(i as int);
            let ghost n = finals[i as int];
            proof {
                assert(finals.take(i + 1) =~= before.push(n));
                before.lemma_filter_push(n, |m: N| m != start);
                sequences::lemma_filter_contains(before, |m: N| m != start, n);
                sequences::lemma_distinct_push(beyond_start(before, start), n);
                assert forall|m: N| #[trigger] before.push(n).contains(m) <==> before.contains(m)
                    || m == n by {
                    sequences::lemma_contains_push(before, n, m);
                }
            }
            let is_new = visited.insert(keys::copy_key(&final_nodes[i]));
            if is_new && !keys::same_key(&final_nodes[i], start_node) {
                to_visit.push(keys::copy_key(&final_nodes[i]));
            }
            i += 1;
        }
        let ghost none = Seq::<(N, N)>::empty();
        proof {
            assert(finals.take(i as int) =~= finals);
            assert forall|n: N| n != start implies (#[trigger] to_visit@.contains(n)
                <==> visited@.contains(n)) by {
                sequences::lemma_distinct_contains(beyond_start(finals, start), n);
                sequences::lemma_filter_contains(finals, |m: N| m != start, n);
            }
            assert(heads_of(none) =~= Seq::<N>::empty());
            assert(graph::adjacency(adj) =~~= graph::gathered(heads_of(none), none));
        }
        look_back(
            rev_adj,
            start_node,
            &mut to_visit,
            &mut visited,
            &mut adj,
            0,
            Ghost(g),
            Ghost(finals),
            Ghost(none),
        );
        let ghost first = to_visit@;
        let ghost mut edges = edges_into_all(g, first);
        proof {
            lemma_found(g, start, finals, g.nodes.len() + finals.len());
            assert(first.skip(0) =~= first);
            assert(none + edges =~= edges);
            if exists|j: int| 0 <= j < first.len() && g.has_edge(start, #[trigger] first[j]) {
                let j = choose|j: int|
                    0 <= j < first.len() && g.has_edge(start, #[trigger] first[j]);
                assert(first.contains(first[j]) && g.has_edge(start, first[j]));
            }
            if exists|c: N| #[trigger] first.contains(c) && g.has_edge(start, c) {
                let c = choose|c: N| #[trigger] first.contains(c) && g.has_edge(start, c);
                assert(g.has_edge(start, first[first.index_of(c)]));
            }
            assert(visited@.contains(start) <==> comes_to_start(g, start, finals));
        }
        if visited.contains(start_node) {
            // The start node was left aside so far.
            let from = to_visit.len();
            let ghost seed = first + g.parents(start);
            let ghost into_start = edges + edges_into(g.parents(start), start);
            proof {
                lemma_second_search(g, start, finals);
            }
            look_at_parents(
                rev_adj,
                start_node,
                start_node,
                &mut to_visit,
                &mut visited,
                &mut adj,
                Ghost(g),
                Ghost(edges),
            );
            look_back(
                rev_adj,
                start_node,
                &mut to_visit,
                &mut visited,
                &mut adj,
                from,
                Ghost(g),
                Ghost(seed),
                Ghost(into_start),
            );
            proof {
                let part = |c: N| edges_into(g.parents(c), c);
                let rest = to_visit@.skip(from as int);
                first.lemma_flat_map_push(part, start);
                sequences::lemma_flat_add(first.push(start), rest, part);
                edges = into_start + edges_into_all(g, rest);
                assert(edges == edges_into_all(g, looked_at(g, start, finals)));
            }
        }
        // The start node stays, even if it has no edges, and so do final nodes.
        graph::enter(&mut adj, keys::copy_key(start_node), Ghost(heads_of(edges)), Ghost(edges));
        let ghost heads = heads_of(edges).push(start);
        enter_lone_finals(
            rev_adj,
            final_nodes,
            &mut adj,
            Ghost(g),
            Ghost(heads),
            Ghost(edges),
        );
        proof {
            graph::lemma_gathers(adj, heads + lone_finals(g, finals), edges);
            law_trim_is_backwards_reachable_subgraph(g, start, finals);
        }
        let graph = SimpleDirectedGraph::new(adj);
        FlowGraph { graph, start_node: self.start_node }
    }
}

} // verus!
