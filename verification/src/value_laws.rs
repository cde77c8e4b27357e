//! Laws of flow graphs of values.

use crate::flow::FlowGraph;
use crate::flow_laws;
use crate::graph;
use crate::graph::GraphView;
use crate::graph_laws;
use crate::order;
use crate::sequences;
use crate::value;
use crate::value::ValueFlowGraph;
use crate::ways;
use std::hash::Hash;
use vstd::prelude::*;

verus! {

/// The nodes of the graph of values are the values of the nodes.
pub proof fn law_value_nodes<N, V>(g: GraphView<N>, values: Map<N, V>, v: V)
    ensures
        value::value_graph(g, values).nodes.contains(v) <==> exists|n: N| #[trigger]
            g.nodes.contains(n) && values[n] == v,
{
    let heads = value::value_nodes(g.nodes, values);
    sequences::lemma_distinct_contains(heads, v);
    if heads.contains(v) {
        let n = g.nodes[heads.index_of(v)];
        assert(g.nodes.contains(n) && values[n] == v);
    }
    if exists|n: N| #[trigger] g.nodes.contains(n) && values[n] == v {
        let n = choose|n: N| #[trigger] g.nodes.contains(n) && values[n] == v;
        assert(heads[g.nodes.index_of(n)] == v);
    }
}

/// The graph of values has an edge between two values exactly where the graph has an edge between
/// nodes with these values.
pub proof fn law_value_edges<N, V>(g: GraphView<N>, values: Map<N, V>, v: V, w: V)
    requires
        g.canonical(),
    ensures
        value::value_graph(g, values).has_edge(v, w) <==> exists|a: N, b: N| #[trigger]
            g.has_edge(a, b) && values[a] == v && values[b] == w,
{
    let heads = value::value_nodes(g.nodes, values);
    let pairs = value::value_edges(g.edges(), values);
    graph::lemma_gathered_edges(heads, pairs);
    if value::value_graph(g, values).has_edge(v, w) {
        let e = g.edges()[pairs.index_of((v, w))];
        assert(g.edges().contains((e.0, e.1)));
        graph_laws::law_edges_are_listed(g, e.0, e.1);
        assert(g.has_edge(e.0, e.1) && values[e.0] == v && values[e.1] == w);
    }
    if exists|a: N, b: N| #[trigger] g.has_edge(a, b) && values[a] == v && values[b] == w {
        let (a, b) = choose|a: N, b: N| #[trigger]
            g.has_edge(a, b) && values[a] == v && values[b] == w;
        graph_laws::law_edges_are_listed(g, a, b);
        assert(pairs[g.edges().index_of((a, b))] == (v, w));
        assert(g.children.contains_key(a));
        assert(heads[g.nodes.index_of(a)] == v);
    }
}

/// The lists of nodes by value invert the values: a node is listed under exactly its value.
pub proof fn law_value_to_nodes_inverts_node_values<
    N: Hash + Eq + Clone,
    V: Hash + Eq + Clone,
>(flow_graph: FlowGraph<N>, values: ValueFlowGraph<N, V>, n: N, v: V)
    requires
        flow_graph.wf(),
        values.is_of(flow_graph),
    ensures
        values.node_values@.contains_key(n) && values.node_values@[n] == v
            <==> values.value_to_nodes@.contains_key(v) && values.value_to_nodes@[v]@.contains(n),
{
    let g = flow_graph.graph@;
    let start = flow_graph.start_node;
    let order = value::visit_order(g, start);
    let map = values.node_values@;
    value::lemma_visits_all(g, start, n);
    sequences::lemma_filter_contains(order, |m: N| map[m] == v, n);
    if map.contains_key(n) && map[n] == v {
        assert(order.contains(n) && map[n] == v);
        assert(values.value_to_nodes@.contains_key(v));
    }
    if values.value_to_nodes@.contains_key(v) && values.value_to_nodes@[v]@.contains(n) {
        assert(value::nodes_with(order, map, v).contains(n));
    }
}

/// The values along a path make a path.
proof fn lemma_value_path<N, V>(g: GraphView<N>, values: Map<N, V>, a: N, b: N)
    requires
        g.canonical(),
        g.leads(a, b),
    ensures
        value::value_graph(g, values).leads(values[a], values[b]),
{
    let p = choose|p: Seq<N>| g.is_path_between(p, a, b);
    let h = value::value_graph(g, values);
    let q = value::value_nodes(p, values);
    assert forall|i: int| 0 <= i < q.len() - 1 implies #[trigger] h.follows_edge(q, i) by {
        assert(g.follows_edge(p, i));
        law_value_edges(g, values, q[i], q[i + 1]);
        assert(g.has_edge(p[i], p[i + 1]) && values[p[i]] == q[i] && values[p[i + 1]] == q[i + 1]);
    }
    assert(h.is_path_between(q, values[a], values[b]));
}

/// If the start node dominates all final nodes, at least one, then there is a dominator value, and
/// the value of the start node dominates it.
pub proof fn law_dominator_value_exists<N: Hash + Eq + Clone, V: Hash + Eq + Clone>(
    flow_graph: FlowGraph<N>,
    values: ValueFlowGraph<N, V>,
    finals: Seq<N>,
    result: Option<V>,
)
    requires
        flow_graph.wf(),
        flow_graph.graph@.nodes.contains(flow_graph.start_node),
        values.is_of(flow_graph),
        finals.len() > 0,
        flow_graph.knows(finals),
        flow_laws::start_dominates_all(flow_graph, finals),
        values.value_flow_graph.is_answer(
            value::value_nodes(finals, values.node_values@),
            result,
        ),
    ensures
        result is Some,
        values.value_flow_graph.entered().dominates(
            Some(values.value_flow_graph.start_node),
            result,
        ),
{
    let g = flow_graph.graph@;
    let start = flow_graph.start_node;
    let map = values.node_values@;
    let vg = values.value_flow_graph;
    let h = vg.graph@;
    let final_values = value::value_nodes(finals, map);
    law_value_nodes(g, map, map[start]);
    assert(g.nodes.contains(start) && map[start] == vg.start_node);
    assert forall|i: int| 0 <= i < final_values.len() implies h.nodes.contains(
        #[trigger] final_values[i],
    ) by {
        law_value_nodes(g, map, final_values[i]);
        assert(g.nodes.contains(finals[i]) && map[finals[i]] == final_values[i]);
    }
    assert forall|i: int| 0 <= i < final_values.len() implies vg.entered().dominates(
        Some(vg.start_node),
        Some(#[trigger] final_values[i]),
    ) by {
        assert(flow_graph.entered().dominates(Some(start), Some(finals[i])));
        flow_laws::law_start_dominates_what_it_leads_to(g, start, finals[i]);
        lemma_value_path(g, map, start, finals[i]);
        flow_laws::law_start_dominates_what_it_leads_to(h, vg.start_node, final_values[i]);
    }
    flow_laws::law_start_gives_common_dominator(vg, final_values, result);
}

/// The lists of nodes by value: exactly the values that nodes have are listed, no node is listed
/// twice, and the nodes of each value are listed in the order in which the graph names them: the
/// start node first, then each node followed by its children.
pub proof fn law_nodes_are_listed_once_by_value<
    N: Hash + Eq + Clone,
    V: Hash + Eq + Clone,
>(flow_graph: FlowGraph<N>, values: ValueFlowGraph<N, V>)
    requires
        flow_graph.wf(),
        values.is_of(flow_graph),
    ensures
        forall|v: V| #[trigger]
            values.value_to_nodes@.contains_key(v) <==> exists|n: N| #[trigger]
                values.node_values@.contains_key(n) && values.node_values@[n] == v,
        forall|v: V| #[trigger]
            values.value_to_nodes@.contains_key(v) ==> values.value_to_nodes@[
                v
            ]@.no_duplicates(),
        forall|v: V, n: N|
            values.value_to_nodes@.contains_key(v) ==> (#[trigger] values.value_to_nodes@[
                v
            ]@.contains(n) <==> values.node_values@.contains_key(n) && values.node_values@[n]
                == v),
        ({
            let named = seq![flow_graph.start_node] + flow_graph.graph@.nodes.flat_map(
                |p: N| seq![p] + flow_graph.graph@.children[p],
            );
            forall|v: V, a: N, b: N|
                values.value_to_nodes@.contains_key(v) && values.node_values@.contains_key(a)
                    && values.node_values@.contains_key(b) && values.node_values@[a] == v
                    && values.node_values@[b] == v ==> (#[trigger] order::before(
                    values.value_to_nodes@[v]@,
                    a,
                    b,
                ) <==> order::before(named, a, b))
        }),
{
    let g = flow_graph.graph@;
    let start = flow_graph.start_node;
    let named = seq![start] + g.nodes.flat_map(|p: N| seq![p] + g.children[p]);
    let visited = value::visit_order(g, start);
    let map = values.node_values@;
    let lists = values.value_to_nodes@;
    order::law_distinct_keeps_first_occurrences(named);
    assert forall|n: N| #[trigger] visited.contains(n) <==> map.contains_key(n) by {
        value::lemma_visits_all(g, start, n);
    }
    assert forall|v: V| #[trigger] lists.contains_key(v) <==> exists|n: N| #[trigger]
        map.contains_key(n) && map[n] == v by {
        if lists.contains_key(v) {
            let n = choose|n: N| #[trigger] visited.contains(n) && map[n] == v;
            assert(map.contains_key(n) && map[n] == v);
        }
        if exists|n: N| #[trigger] map.contains_key(n) && map[n] == v {
            let n = choose|n: N| #[trigger] map.contains_key(n) && map[n] == v;
            assert(visited.contains(n) && map[n] == v);
        }
    }
    assert forall|v: V| #[trigger] lists.contains_key(v) implies lists[v]@.no_duplicates() by {
        sequences::lemma_filter_no_duplicates(visited, |n: N| map[n] == v);
    }
    assert forall|v: V, n: N| lists.contains_key(v) implies (#[trigger] lists[v]@.contains(n)
        <==> map.contains_key(n) && map[n] == v) by {
        law_value_to_nodes_inverts_node_values(flow_graph, values, n, v);
    }
    assert forall|v: V, a: N, b: N|
        lists.contains_key(v) && map.contains_key(a) && map.contains_key(b) && map[a] == v
            && map[b] == v implies (#[trigger] order::before(lists[v]@, a, b) <==> order::before(
        named,
        a,
        b,
    )) by {
        order::lemma_before_filter(visited, |n: N| map[n] == v, a, b);
    }
}

/// The flow graph of values: its nodes are the values of the nodes, in the order of the nodes. It
/// has an edge between two values exactly where there is an edge between nodes with these values,
/// and the children of a value come in the order of these edges. Nothing comes twice. It starts at
/// the value of the start node.
pub proof fn law_flow_graph_of_values<N: Hash + Eq + Clone, V: Hash + Eq + Clone>(
    flow_graph: FlowGraph<N>,
    values: ValueFlowGraph<N, V>,
)
    requires
        flow_graph.wf(),
        values.is_of(flow_graph),
    ensures
        ({
            let g = flow_graph.graph@;
            let h = values.value_flow_graph.graph@;
            let map = values.node_values@;
            let named = g.nodes.map_values(|n: N| map[n]);
            let pairs = g.edges().map_values(|e: (N, N)| (map[e.0], map[e.1]));
            &&& forall|n: N| #[trigger]
                map.contains_key(n) <==> g.nodes.contains(n) || n == flow_graph.start_node
            &&& values.value_flow_graph.start_node == map[flow_graph.start_node]
            &&& h.nodes.no_duplicates()
            &&& forall|v: V| #[trigger]
                h.nodes.contains(v) <==> exists|n: N| #[trigger]
                    g.nodes.contains(n) && map[n] == v
            &&& forall|v: V, w: V| #[trigger]
                h.edges().contains((v, w)) <==> exists|a: N, b: N| #[trigger]
                    g.edges().contains((a, b)) && map[a] == v && map[b] == w
            &&& h.edges().no_duplicates()
            &&& forall|v: V, w: V| #[trigger]
                order::before(h.nodes, v, w) <==> order::before(named, v, w)
            &&& forall|v: V, w: V, x: V|
                h.nodes.contains(v) ==> (#[trigger] order::before(h.children[v], w, x)
                    <==> order::before(pairs, (v, w), (v, x)))
        }),
{
    let g = flow_graph.graph@;
    let h = values.value_flow_graph.graph@;
    let map = values.node_values@;
    let named = g.nodes.map_values(|n: N| map[n]);
    let pairs = g.edges().map_values(|e: (N, N)| (map[e.0], map[e.1]));
    assert(named =~= value::value_nodes(g.nodes, map));
    assert(pairs =~= value::value_edges(g.edges(), map));
    assert(h == graph::gathered(named, pairs));
    value::lemma_value_graph_canonical(g, map);
    order::law_distinct_keeps_first_occurrences(named);
    graph_laws::law_no_edge_is_listed_twice(h);
    assert forall|v: V| #[trigger] h.nodes.contains(v) <==> exists|n: N| #[trigger]
        g.nodes.contains(n) && map[n] == v by {
        law_value_nodes(g, map, v);
    }
    assert forall|v: V, w: V| #[trigger] h.edges().contains((v, w)) <==> exists|a: N, b: N|
        #[trigger] g.edges().contains((a, b)) && map[a] == v && map[b] == w by {
        graph_laws::law_edges_are_listed(h, v, w);
        law_value_edges(g, map, v, w);
        if h.has_edge(v, w) {
            let (a, b) = choose|a: N, b: N| #[trigger]
                g.has_edge(a, b) && map[a] == v && map[b] == w;
            graph_laws::law_edges_are_listed(g, a, b);
            assert(g.edges().contains((a, b)) && map[a] == v && map[b] == w);
        }
        if exists|a: N, b: N| #[trigger]
            g.edges().contains((a, b)) && map[a] == v && map[b] == w {
            let (a, b) = choose|a: N, b: N| #[trigger]
                g.edges().contains((a, b)) && map[a] == v && map[b] == w;
            graph_laws::law_edges_are_listed(g, a, b);
            assert(g.has_edge(a, b) && map[a] == v && map[b] == w);
        }
    }
    assert forall|v: V, w: V, x: V| h.nodes.contains(v) implies (#[trigger] order::before(
        h.children[v],
        w,
        x,
    ) <==> order::before(pairs, (v, w), (v, x))) by {
        assert(named.contains(v));
        order::lemma_before_distinct(sequences::ends_of(pairs, v), w, x);
        order::lemma_before_ends(pairs, v, w, x);
    }
}

/// The error of a search for values is that for some node. All nodes that the graph names before it
/// have a value, where the start node comes first, then each node followed by its children.
pub proof fn law_first_error_is_returned<
    N: Hash + Eq + Clone,
    V: Hash + Eq + Clone,
    E,
    F: Fn(&N) -> Result<V, E>,
>(flow_graph: FlowGraph<N>, value_fn: F, error: E)
    requires
        flow_graph.wf(),
        value::fails_first::<N, V, E, F>(
            value_fn,
            value::visit_order(flow_graph.graph@, flow_graph.start_node),
            error,
        ),
    ensures
        ({
            let named = seq![flow_graph.start_node] + flow_graph.graph@.nodes.flat_map(
                |p: N| seq![p] + flow_graph.graph@.children[p],
            );
            exists|n: N|
                {
                    &&& #[trigger] named.contains(n)
                    &&& call_ensures(value_fn, (&n,), Err::<V, E>(error))
                    &&& forall|m: N| #[trigger]
                        order::before(named, m, n) ==> exists|v: V|
                            call_ensures(value_fn, (&m,), Ok::<V, E>(v))
                }
        }),
{
    let g = flow_graph.graph@;
    let start = flow_graph.start_node;
    let named = seq![start] + g.nodes.flat_map(|p: N| seq![p] + g.children[p]);
    let visited = value::visit_order(g, start);
    order::law_distinct_keeps_first_occurrences(named);
    let i = choose|i: int|
        0 <= i < visited.len() && call_ensures(
            value_fn,
            (&#[trigger] visited[i],),
            Err::<V, E>(error),
        ) && forall|j: int|
            0 <= j < i ==> value::answers::<N, V, E, F>(value_fn, #[trigger] visited[j]);
    let n = visited[i];
    assert(visited.contains(n));
    assert forall|m: N| #[trigger] order::before(named, m, n) implies exists|v: V|
        call_ensures(value_fn, (&m,), Ok::<V, E>(v)) by {
        assert(order::before(visited, m, n));
        let k = choose|k: int|
            0 <= k < visited.len() && #[trigger] visited[k] == m && forall|j: int|
                0 <= j <= k ==> visited[j] != n;
        assert(k < i);
        assert(value::answers::<N, V, E, F>(value_fn, visited[k]));
    }
    assert(named.contains(n));
}

/// The dominator value of some final nodes, at least one, is a value that is on every way in the
/// graph of values from the value of the start node to the value of a final node, and every other
/// such value is on every way from the value of the start node to it. It exists if and only if there
/// is a way from the value of the start node to the value of each final node.
pub proof fn law_dominator_value_is_on_every_way<N: Hash + Eq + Clone, V: Hash + Eq + Clone>(
    values: ValueFlowGraph<N, V>,
    finals: Seq<N>,
    result: Option<V>,
)
    requires
        values.value_flow_graph.wf(),
        values.knows(finals),
        values.value_flow_graph.is_answer(
            value::value_nodes(finals, values.node_values@),
            result,
        ),
    ensures
        forall|f: N| #[trigger] finals.contains(f) ==> values.node_values@.contains_key(f),
        ({
            let h = values.value_flow_graph;
            let start = set![h.start_node];
            let edges = h.graph@.edges();
            let final_values = finals.map_values(|f: N| values.node_values@[f]);
            &&& result is Some <==> {
                &&& finals.len() > 0
                &&& h.graph@.nodes.contains(h.start_node)
                &&& forall|f: N| #[trigger]
                    finals.contains(f) ==> h.graph@.nodes.contains(values.node_values@[f])
                        && ways::has_way(start, edges, values.node_values@[f])
            }
            &&& result is Some ==> {
                &&& h.graph@.nodes.contains(result->0)
                &&& ways::has_way(start, edges, result->0)
                &&& ways::guards_all(start, edges, result->0, final_values)
                &&& forall|y: V| #[trigger]
                    ways::guards_all(start, edges, y, final_values) ==> ways::guards(
                        start,
                        edges,
                        y,
                        result->0,
                    )
            }
        }),
{
    let h = values.value_flow_graph;
    let map = values.node_values@;
    let start = set![h.start_node];
    let edges = h.graph@.edges();
    let final_values = finals.map_values(|f: N| map[f]);
    assert(final_values =~= value::value_nodes(finals, map));
    flow_laws::law_answer_is_on_every_way(h, final_values, result);
    assert forall|f: N| #[trigger] finals.contains(f) implies map.contains_key(f)
        && final_values.contains(map[f]) by {
        let i = finals.index_of(f);
        assert(map.contains_key(finals[i]));
        assert(final_values[i] == map[f]);
    }
    assert forall|v: V| #[trigger] final_values.contains(v) implies exists|f: N| #[trigger]
        finals.contains(f) && map[f] == v by {
        let f = finals[final_values.index_of(v)];
        assert(finals.contains(f) && map[f] == v);
    }
}

/// Final nodes are known if and only if each of them has a value.
pub proof fn law_unknown_final_nodes<N: Hash + Eq + Clone, V: Hash + Eq + Clone>(
    values: ValueFlowGraph<N, V>,
    finals: Seq<N>,
)
    ensures
        values.knows(finals) <==> forall|f: N| #[trigger]
            finals.contains(f) ==> values.node_values@.contains_key(f),
{
    if values.knows(finals) {
        assert forall|f: N| #[trigger] finals.contains(f) implies values.node_values@.contains_key(
            f,
        ) by {
            assert(values.node_values@.contains_key(finals[finals.index_of(f)]));
        }
    }
    if forall|f: N| #[trigger] finals.contains(f) ==> values.node_values@.contains_key(f) {
        assert forall|i: int| 0 <= i < finals.len() implies values.node_values@.contains_key(
            #[trigger] finals[i],
        ) by {
            assert(finals.contains(finals[i]));
        }
    }
}

/// Whatever values `a` and `b` get, they get the same.
pub open spec fn get_same_value<N, V, E, F: Fn(&N) -> Result<V, E>>(
    value_fn: F,
    a: N,
    b: N,
) -> bool {
    forall|v: V, w: V|
        #![trigger call_ensures(value_fn, (&a,), Ok::<V, E>(v)), call_ensures(value_fn, (&b,), Ok::<V, E>(w))]
        call_ensures(value_fn, (&a,), Ok::<V, E>(v)) && call_ensures(
            value_fn,
            (&b,),
            Ok::<V, E>(w),
        ) ==> v == w
}

/// The value of the start node occurs if the start node is in the graph, or if some node of the
/// graph gets the same value.
pub proof fn law_start_value_occurs<N, V, E, F: Fn(&N) -> Result<V, E>>(
    flow_graph: FlowGraph<N>,
    value_fn: F,
    n: N,
)
    requires
        flow_graph.graph@.nodes.contains(n),
        n == flow_graph.start_node || get_same_value::<N, V, E, F>(
            value_fn,
            flow_graph.start_node,
            n,
        ),
    ensures
        value::start_value_occurs::<N, V, E, F>(flow_graph, value_fn),
{
    if n != flow_graph.start_node {
        assert forall|v: V| #[trigger]
            call_ensures(value_fn, (&flow_graph.start_node,), Ok::<V, E>(v)) implies exists|m: N|
            #[trigger]
            flow_graph.graph@.nodes.contains(m) && value::gives_only::<N, V, E, F>(
                value_fn,
                m,
                v,
            ) by {
            assert(flow_graph.graph@.nodes.contains(n) && value::gives_only::<N, V, E, F>(
                value_fn,
                n,
                v,
            ));
        }
    }
}

} // verus!
