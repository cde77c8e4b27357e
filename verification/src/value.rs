//! Flow graphs of values.

use crate::errors::FlowGraphError;
use crate::flow::FlowGraph;
use crate::graph;
use crate::graph::GraphView;
use crate::graph::SimpleDirectedGraph;
use crate::graph_laws;
use crate::keys;
use crate::order;
use crate::ordered::OrderedMap;
use crate::ordered::OrderedSet;
use crate::sequences;
use crate::value_laws;
use crate::ways;
use std::collections::HashMap;
use std::hash::Hash;
use vstd::prelude::*;

verus! {

/// The nodes that have the value `v`, in the given order.
pub open spec fn nodes_with<N, V>(order: Seq<N>, values: Map<N, V>, v: V) -> Seq<N> {
    order.filter(|n: N| values[n] == v)
}

/// The order in which the values of the nodes are asked for: that of the start node first, then
/// that of each node followed by those of its children.
pub open spec fn visit_order<N>(g: GraphView<N>, start: N) -> Seq<N> {
    sequences::distinct(
        seq![start] + g.nodes.flat_map(|parent: N| seq![parent] + g.children[parent]),
    )
}

/// The graph of the values: its nodes are the values of the nodes, and each edge of the graph
/// gives an edge between the values of its ends.
pub open spec fn value_graph<N, V>(g: GraphView<N>, values: Map<N, V>) -> GraphView<V> {
    graph::gathered(value_nodes(g.nodes, values), value_edges(g.edges(), values))
}

/// The nodes that were recorded with each value are listed in order.
pub open spec fn inverts<N, V>(
    value_to_nodes: Map<V, Vec<N>>,
    order: Seq<N>,
    values: Map<N, V>,
) -> bool {
    &&& forall|v: V| #[trigger]
        value_to_nodes.contains_key(v) <==> exists|n: N| #[trigger]
            order.contains(n) && values[n] == v
    &&& forall|v: V| #[trigger]
        value_to_nodes.contains_key(v) ==> value_to_nodes[v]@ == nodes_with(order, values, v)
}

/// Asks for the values of nodes, once for each node, and remembers them.
#[verifier::reject_recursive_types(N)]
#[verifier::reject_recursive_types(V)]
#[verifier::reject_recursive_types(F)]
struct ValueRecorder<'a, N, V, F> {
    node_values: HashMap<N, V>,
    value_to_nodes: HashMap<V, Vec<N>>,
    value_fn: &'a F,
    recorded: Ghost<Seq<N>>,
}

impl<'a, N: Hash + Eq + Clone, V: Hash + Eq + Clone, F> ValueRecorder<'a, N, V, F> {
    /// Exactly the recorded nodes have a value, each is recorded once, and each value is listed
    /// with its nodes.
    spec fn wf(&self) -> bool {
        &&& self.recorded@.no_duplicates()
        &&& forall|n: N| #[trigger]
            self.node_values@.contains_key(n) <==> self.recorded@.contains(n)
        &&& inverts(self.value_to_nodes@, self.recorded@, self.node_values@)
    }

    /// A recorder that knows no values.
    fn new(value_fn: &'a F) -> (result: Self)
        requires
            keys::key_model::<N>(),
            keys::key_model::<V>(),
        ensures
            result.wf(),
            result.value_fn == value_fn,
            result.recorded@ == Seq::<N>::empty(),
    {
        broadcast use vstd::std_specs::hash::group_hash_axioms;

        ValueRecorder {
            node_values: HashMap::new(),
            value_to_nodes: HashMap::new(),
            value_fn,
            recorded: Ghost(Seq::empty()),
        }
    }

    /// The value of a node, which is asked for if it is not known yet.
    fn get_value<E>(&mut self, node: &N) -> (result: Result<V, E>) where
        F: Fn(&N) -> Result<V, E>,

        requires
            keys::key_model::<N>(),
            keys::key_model::<V>(),
            old(self).wf(),
            call_requires(*old(self).value_fn, (node,)),
        ensures
            final(self).wf(),
            final(self).value_fn == old(self).value_fn,
            match result {
                Ok(value) => {
                    &&& final(self).node_values@[*node] == value
                    &&& if old(self).recorded@.contains(*node) {
                        final(self).recorded@ == old(self).recorded@ && final(self).node_values@
                            == old(self).node_values@
                    } else {
                        &&& call_ensures(*old(self).value_fn, (node,), Ok::<V, E>(value))
                        &&& final(self).recorded@ == old(self).recorded@.push(*node)
                        &&& final(self).node_values@ == old(self).node_values@.insert(*node, value)
                    }
                },
                Err(error) => {
                    &&& !old(self).recorded@.contains(*node)
                    &&& call_ensures(*old(self).value_fn, (node,), Err::<V, E>(error))
                    &&& final(self).recorded@ == old(self).recorded@
                    &&& final(self).node_values@ == old(self).node_values@
                },
            },
    {
        broadcast use vstd::std_specs::hash::group_hash_axioms;

        if let Some(value) = self.node_values.get(node) {
            return Ok(keys::copy_key(value));
        }
        let value = match (self.value_fn)(node) {
            Ok(value) => value,
            Err(error) => {
                return Err(error);
            },
        };
        let ghost order = self.recorded@;
        let ghost values = self.node_values@;
        let ghost lists = self.value_to_nodes@;
        self.node_values.insert(keys::copy_key(node), keys::copy_key(&value));
        let mut nodes = match self.value_to_nodes.remove(&value) {
            Some(nodes) => nodes,
            None => Vec::new(),
        };
        proof {
            if !lists.contains_key(value) {
                lemma_nobody_has(order, values, value);
            }
        }
        nodes.push(keys::copy_key(node));
        self.value_to_nodes.insert(keys::copy_key(&value), nodes);
        proof {
            self.recorded@ = order.push(*node);
            lemma_inverts_push(lists, order, values, *node, value, self.value_to_nodes@);
            assert forall|n: N| #[trigger]
                self.node_values@.contains_key(n) <==> self.recorded@.contains(n) by {
                sequences::lemma_contains_push(order, *node, n);
            }
        }
        Ok(value)
    }

    /// The recorder has been asked for the values of the given nodes, and `value_fn` gave all
    /// that it knows.
    spec fn asked<E>(&self, value_fn: &F, log: Seq<N>) -> bool where F: Fn(&N) -> Result<V, E> {
        &&& self.wf()
        &&& self.value_fn == value_fn
        &&& self.recorded@ == sequences::distinct(log)
        &&& forall|n: N| #[trigger]
            self.recorded@.contains(n) ==> call_ensures(
                *value_fn,
                (&n,),
                Ok::<V, E>(self.node_values@[n]),
            )
    }

    /// Asks for the value of the next node.
    fn ask<E>(
        &mut self,
        node: &N,
        Ghost(log): Ghost<Seq<N>>,
        Ghost(rest): Ghost<Seq<N>>,
    ) -> (result: Result<V, E>) where F: Fn(&N) -> Result<V, E>
        requires
            keys::key_model::<N>(),
            keys::key_model::<V>(),
            old(self).asked::<E>(old(self).value_fn, log),
            call_requires(*old(self).value_fn, (node,)),
        ensures
            match result {
                Ok(value) => {
                    &&& final(self).asked::<E>(old(self).value_fn, log.push(*node))
                    &&& final(self).recorded@.contains(*node)
                    &&& final(self).node_values@[*node] == value
                    &&& forall|n: N| #[trigger]
                        old(self).recorded@.contains(n) ==> final(self).recorded@.contains(n)
                            && final(self).node_values@[n] == old(self).node_values@[n]
                },
                Err(error) => fails_first::<N, V, E, F>(
                    *old(self).value_fn,
                    sequences::distinct(log.push(*node) + rest),
                    error,
                ),
            },
    {
        let ghost recorded = self.recorded@;
        proof {
            sequences::lemma_distinct_push(log, *node);
            sequences::lemma_distinct_contains(log, *node);
            assert forall|n: N| #[trigger] recorded.push(*node).contains(n) <==> recorded.contains(
                n,
            ) || n == *node by {
                sequences::lemma_contains_push(recorded, *node, n);
            }
        }
        let result = self.get_value(node);
        proof {
            if result is Err {
                let order = sequences::distinct(log.push(*node) + rest);
                let k = recorded.len() as int;
                sequences::lemma_distinct_prefix(log.push(*node), rest);
                let first = order.take(k + 1);
                assert(first == recorded.push(*node));
                assert(order[k] == first[k]);
                assert forall|j: int| 0 <= j < k implies answers::<N, V, E, F>(
                    *self.value_fn,
                    #[trigger] order[j],
                ) by {
                    assert(order[j] == first[j]);
                    assert(recorded.contains(recorded[j]));
                }
            }
        }
        result
    }

    /// What was recorded.
    fn done(self) -> (result: (HashMap<N, V>, HashMap<V, Vec<N>>))
        ensures
            result == (self.node_values, self.value_to_nodes),
    {
        (self.node_values, self.value_to_nodes)
    }
}

/// A value that no node has, has no nodes.
proof fn lemma_nobody_has<N, V>(order: Seq<N>, values: Map<N, V>, v: V)
    requires
        !exists|n: N| #[trigger] order.contains(n) && values[n] == v,
    ensures
        nodes_with(order, values, v) == Seq::<N>::empty(),
{
    let list = nodes_with(order, values, v);
    if list.len() > 0 {
        assert(list.contains(list[0]));
        sequences::lemma_filter_contains(order, |n: N| values[n] == v, list[0]);
    }
}

/// The lists of nodes by value once one more node is recorded.
proof fn lemma_inverts_push<N, V>(
    lists: Map<V, Vec<N>>,
    order: Seq<N>,
    values: Map<N, V>,
    node: N,
    value: V,
    after: Map<V, Vec<N>>,
)
    requires
        inverts(lists, order, values),
        !order.contains(node),
        forall|v: V| #[trigger]
            after.contains_key(v) <==> lists.contains_key(v) || v == value,
        forall|v: V| v != value && #[trigger] lists.contains_key(v) ==> after[v] == lists[v],
        after[value]@ == nodes_with(order, values, value).push(node),
    ensures
        inverts(after, order.push(node), values.insert(node, value)),
{
    let order1 = order.push(node);
    let values1 = values.insert(node, value);
    assert forall|n: N| #[trigger] order1.contains(n) <==> order.contains(n) || n == node by {
        sequences::lemma_contains_push(order, node, n);
    }
    assert forall|v: V| #[trigger] after.contains_key(v) <==> exists|n: N| #[trigger]
        order1.contains(n) && values1[n] == v by {
        if lists.contains_key(v) {
            let n = choose|n: N| #[trigger] order.contains(n) && values[n] == v;
            assert(order1.contains(n) && values1[n] == v);
        }
        if v == value {
            assert(order1.contains(node) && values1[node] == v);
        }
        if exists|n: N| #[trigger] order1.contains(n) && values1[n] == v {
            let n = choose|n: N| #[trigger] order1.contains(n) && values1[n] == v;
            if n != node {
                assert(order.contains(n) && values[n] == v);
            }
        }
    }
    assert forall|v: V| #[trigger] after.contains_key(v) implies after[v]@ == nodes_with(
        order1,
        values1,
        v,
    ) by {
        let has = |n: N| values[n] == v;
        let has1 = |n: N| values1[n] == v;
        order.lemma_filter_push(node, has1);
        lemma_filter_same(order, has, has1);
    }
}

/// Two filters that agree on the elements of a sequence keep the same.
proof fn lemma_filter_same<X>(s: Seq<X>, f: spec_fn(X) -> bool, g: spec_fn(X) -> bool)
    requires
        forall|x: X| #[trigger] s.contains(x) ==> f(x) == g(x),
    ensures
        s.filter(f) == s.filter(g),
    decreases s.len(),
{
    reveal(Seq::filter);
    if s.len() > 0 {
        let t = s.drop_last();
        assert forall|x: X| #[trigger] t.contains(x) implies f(x) == g(x) by {
            assert(s[t.index_of(x)] == x);
            assert(s.contains(x));
        }
        lemma_filter_same(t, f, g);
        assert(s.contains(s.last()));
    }
}

/// The value of `n` can be had.
pub open spec fn answers<N, V, E, F: Fn(&N) -> Result<V, E>>(f: F, n: N) -> bool {
    exists|v: V| call_ensures(f, (&n,), Ok::<V, E>(v))
}

/// `error` is the error for some node in the given order, and the value of every node before it
/// can be had.
pub open spec fn fails_first<N, V, E, F: Fn(&N) -> Result<V, E>>(
    f: F,
    order: Seq<N>,
    error: E,
) -> bool {
    exists|i: int|
        0 <= i < order.len() && call_ensures(
            f,
            (&#[trigger] order[i],),
            Err::<V, E>(error),
        ) && forall|j: int| 0 <= j < i ==> answers::<N, V, E, F>(f, #[trigger] order[j])
}

/// The value of `n`, if it can be had, is `v`.
pub open spec fn gives_only<N, V, E, F: Fn(&N) -> Result<V, E>>(f: F, n: N, v: V) -> bool {
    forall|w: V| #[trigger] call_ensures(f, (&n,), Ok::<V, E>(w)) ==> w == v
}

/// The start node is in the graph, or its value is also that of a node in the graph.
pub open spec fn start_value_occurs<N, V, E, F: Fn(&N) -> Result<V, E>>(
    g: FlowGraph<N>,
    f: F,
) -> bool {
    g.graph@.nodes.contains(g.start_node) || forall|v: V| #[trigger]
        call_ensures(f, (&g.start_node,), Ok::<V, E>(v)) ==> exists|n: N| #[trigger]
            g.graph@.nodes.contains(n) && gives_only::<N, V, E, F>(f, n, v)
}

/// The values of the given nodes.
pub open spec fn value_nodes<N, V>(nodes: Seq<N>, values: Map<N, V>) -> Seq<V> {
    nodes.map_values(|n: N| values[n])
}

/// The values of the ends of the given edges.
pub open spec fn value_edges<N, V>(edges: Seq<(N, N)>, values: Map<N, V>) -> Seq<(V, V)> {
    edges.map_values(|e: (N, N)| (values[e.0], values[e.1]))
}

/// The given nodes and the ends of the given edges have been recorded.
spec fn covers<N>(recorded: Seq<N>, nodes: Seq<N>, edges: Seq<(N, N)>) -> bool {
    &&& forall|k: int| 0 <= k < nodes.len() ==> recorded.contains(#[trigger] nodes[k])
    &&& forall|k: int|
        0 <= k < edges.len() ==> recorded.contains((#[trigger] edges[k]).0) && recorded.contains(
            edges[k].1,
        )
}

/// The values of recorded nodes do not change.
proof fn lemma_values_kept<N, V>(
    recorded: Seq<N>,
    nodes: Seq<N>,
    edges: Seq<(N, N)>,
    before: Map<N, V>,
    after: Map<N, V>,
)
    requires
        covers(recorded, nodes, edges),
        forall|n: N| #[trigger] recorded.contains(n) ==> after[n] == before[n],
    ensures
        value_nodes(nodes, after) == value_nodes(nodes, before),
        value_edges(edges, after) == value_edges(edges, before),
{
    assert forall|k: int| 0 <= k < nodes.len() implies after[nodes[k]] == before[nodes[k]] by {
        assert(recorded.contains(nodes[k]));
    }
    assert forall|k: int| 0 <= k < edges.len() implies after[edges[k].0] == before[edges[k].0]
        && after[edges[k].1] == before[edges[k].1] by {
        assert(recorded.contains(edges[k].0));
    }
    assert(value_nodes(nodes, after) =~= value_nodes(nodes, before));
    assert(value_edges(edges, after) =~= value_edges(edges, before));
}

/// The graph of values is canonical.
pub proof fn lemma_value_graph_canonical<N, V>(g: GraphView<N>, values: Map<N, V>)
    requires
        g.canonical(),
    ensures
        value_graph(g, values).canonical(),
{
    let heads = value_nodes(g.nodes, values);
    let pairs = value_edges(g.edges(), values);
    assert forall|i: int| 0 <= i < pairs.len() implies heads.contains((#[trigger] pairs[i]).1) by {
        let e = g.edges()[i];
        assert(g.edges().contains((e.0, e.1)));
        graph_laws::law_edges_are_listed(g, e.0, e.1);
        let k = g.nodes.index_of(e.1);
        assert(heads[k] == pairs[i].1);
    }
    graph::lemma_gathered_canonical(heads, pairs);
}

/// The values of exactly the nodes of the graph and of the start node are asked for.
pub proof fn lemma_visits_all<N>(g: GraphView<N>, start: N, n: N)
    requires
        g.canonical(),
    ensures
        visit_order(g, start).contains(n) <==> g.nodes.contains(n) || n == start,
{
    let block = |parent: N| seq![parent] + g.children[parent];
    let blocks = g.nodes.flat_map(block);
    sequences::lemma_distinct_contains(seq![start] + blocks, n);
    sequences::lemma_contains_add(seq![start], blocks, n);
    sequences::lemma_flat_contains(g.nodes, block, n);
    if g.nodes.contains(n) {
        assert(block(n)[0] == n);
        assert(block(n).contains(n));
    }
    if n == start {
        assert(seq![start][0] == n);
    }
    if blocks.contains(n) {
        let p = choose|p: N| g.nodes.contains(p) && #[trigger] block(p).contains(n);
        sequences::lemma_contains_add(seq![p], g.children[p], n);
        if g.children[p].contains(n) {
            assert(g.children.contains_key(p));
            assert(g.has_edge(p, n));
        }
    }
}

/// The flow graph G' of the values of the nodes of a flow graph G.
///
/// Its nodes are the values of the nodes of G. Each edge of G gives an edge between the values of
/// its ends. It starts at the value of the start node of G. It may have cycles even if G has none.
#[derive(PartialEq, Eq)]
#[verifier::reject_recursive_types(N)]
#[verifier::reject_recursive_types(V)]
pub struct ValueFlowGraph<N: Hash + Eq + Clone, V: Hash + Eq + Clone> {
    /// The flow graph of values.
    pub value_flow_graph: FlowGraph<V>,
    /// The value of each node.
    pub node_values: HashMap<N, V>,
    /// The nodes that have each value.
    pub value_to_nodes: HashMap<V, Vec<N>>,
}

impl<N: Hash + Eq + Clone, V: Hash + Eq + Clone> ValueFlowGraph<N, V> {
    /// The given nodes have values.
    pub open spec fn knows(&self, nodes: Seq<N>) -> bool {
        forall|i: int| 0 <= i < nodes.len() ==> self.node_values@.contains_key(#[trigger] nodes[i])
    }

    /// This is the flow graph of the values of the nodes of `g`.
    pub open spec fn is_of(&self, g: FlowGraph<N>) -> bool {
        &&& forall|n: N| #[trigger]
            self.node_values@.contains_key(n) <==> g.graph@.nodes.contains(n) || n == g.start_node
        &&& self.value_flow_graph.graph@ == value_graph(g.graph@, self.node_values@)
        &&& self.value_flow_graph.start_node == self.node_values@[g.start_node]
        &&& inverts(
            self.value_to_nodes@,
            visit_order(g.graph@, g.start_node),
            self.node_values@,
        )
    }

    /// Makes the flow graph of values of the given graph, with the value that `value_fn` gives
    /// to each node.
    ///
    /// Returns an error if `value_fn` returns an error.
    pub fn new<VF, E>(g: &FlowGraph<N>, value_fn: &VF) -> (result: Result<Self, E>) where
        VF: Fn(&N) -> Result<V, E>,

        requires
            keys::key_model::<N>(),
            keys::key_model::<V>(),
            g.wf(),
            start_value_occurs::<N, V, E, VF>(*g, *value_fn),
            call_requires(*value_fn, (&g.start_node,)),
            forall|n: N| #[trigger]
                g.graph@.nodes.contains(n) ==> call_requires(*value_fn, (&n,)),
        ensures
            match result {
                Ok(values) => {
                    &&& values.is_of(*g)
                    &&& values.value_flow_graph.wf()
                    &&& forall|v: V| #[trigger]
                        values.value_flow_graph.graph@.nodes.contains(v) <==> exists|n: N|
                            #[trigger] g.graph@.nodes.contains(n) && values.node_values@[n] == v
                    &&& forall|v: V, w: V| #[trigger]
                        values.value_flow_graph.graph@.edges().contains((v, w)) <==> exists|
                            a: N,
                            b: N,
                        | #[trigger]
                            g.graph@.edges().contains((a, b)) && values.node_values@[a] == v
                                && values.node_values@[b] == w
                    &&& forall|v: V| #[trigger]
                        values.value_to_nodes@.contains_key(v) <==> exists|n: N| #[trigger]
                            values.node_values@.contains_key(n) && values.node_values@[n] == v
                    &&& forall|v: V| #[trigger]
                        values.value_to_nodes@.contains_key(v) ==> values.value_to_nodes@[
                            v
                        ]@.no_duplicates()
                    &&& forall|v: V, n: N|
                        values.value_to_nodes@.contains_key(v) ==> (
                        #[trigger] values.value_to_nodes@[v]@.contains(n)
                            <==> values.node_values@.contains_key(n) && values.node_values@[n]
                            == v)
                    &&& forall|v: V, w: V| #[trigger]
                        order::before(values.value_flow_graph.graph@.nodes, v, w)
                            <==> order::before(
                            g.graph@.nodes.map_values(|n: N| values.node_values@[n]),
                            v,
                            w,
                        )
                    &&& values.value_flow_graph.graph@.nodes.contains(
                        values.value_flow_graph.start_node,
                    )
                    &&& forall|n: N| #[trigger]
                        values.node_values@.contains_key(n) ==> call_ensures(
                            *value_fn,
                            (&n,),
                            Ok::<V, E>(values.node_values@[n]),
                        )
                },
                Err(error) => fails_first::<N, V, E, VF>(
                    *value_fn,
                    visit_order(g.graph@, g.start_node),
                    error,
                ),
            },
    {
        let ghost gv = g.graph@;
        let ghost start = g.start_node;
        let ghost block = |parent: N| seq![parent] + gv.children[parent];
        let ghost part = |parent: N| gv.edges_from(parent);
        let ghost full = seq![start] + gv.nodes.flat_map(block);
        let mut value_recorder: ValueRecorder<N, V, VF> = ValueRecorder::new(value_fn);
        let mut value_adj: OrderedMap<V, OrderedSet<V>> = OrderedMap::new();

        proof {
            assert(full =~= Seq::<N>::empty().push(start) + gv.nodes.flat_map(block));
        }
        let start_value = match value_recorder.ask(
            &g.start_node,
            Ghost(Seq::empty()),
            Ghost(gv.nodes.flat_map(block)),
        ) {
            Ok(value) => value,
            Err(error) => {
                return Err(error);
            },
        };

        let adj = g.graph.adj();
        let mut i: usize = 0;
        proof {
            assert(seq![start] + gv.nodes.take(0).flat_map(block) =~= Seq::<N>::empty().push(
                start,
            ));
            assert(gv.nodes.take(0).flat_map(part) =~= Seq::<(N, N)>::empty());
            assert(value_nodes(gv.nodes.take(0), value_recorder.node_values@)
                =~= Seq::<V>::empty());
            assert(value_edges(
                gv.nodes.take(0).flat_map(part),
                value_recorder.node_values@,
            ) =~= Seq::<(V, V)>::empty());
            assert(graph::adjacency(value_adj) =~~= graph::gathered(
                Seq::<V>::empty(),
                Seq::<(V, V)>::empty(),
            ));
        }
        while i < adj.len()
            invariant
                keys::key_model::<N>(),
                keys::key_model::<V>(),
                gv == g.graph@,
                start == g.start_node,
                gv.canonical(),
                adj.wf(),
                graph::adjacency(*adj) == gv,
                block == (|parent: N| seq![parent] + gv.children[parent]),
                part == (|parent: N| gv.edges_from(parent)),
                full == seq![start] + gv.nodes.flat_map(block),
                forall|n: N| #[trigger] gv.nodes.contains(n) ==> call_requires(*value_fn, (&n,)),
                0 <= i <= gv.nodes.len(),
                value_recorder.asked::<E>(
                    value_fn,
                    seq![start] + gv.nodes.take(i as int).flat_map(block),
                ),
                value_recorder.recorded@.contains(start),
                value_recorder.node_values@[start] == start_value,
                covers(
                    value_recorder.recorded@,
                    gv.nodes.take(i as int),
                    gv.nodes.take(i as int).flat_map(part),
                ),
                graph::gathers(
                    value_adj,
                    value_nodes(gv.nodes.take(i as int), value_recorder.node_values@),
                    value_edges(
                        gv.nodes.take(i as int).flat_map(part),
                        value_recorder.node_values@,
                    ),
                ),
            decreases gv.nodes.len() - i,
        {
            let ghost ns = gv.nodes.take(i as int);
            let ghost es = ns.flat_map(part);
            let ghost log = seq![start] + ns.flat_map(block);
            let ghost later = gv.nodes.skip(i + 1).flat_map(block);
            match adj.get_index(i) {
                Some((parent, children)) => {
                    let ghost p = *parent;
                    let ghost out = part(p);
                    let ghost ns1 = ns.push(p);
                    proof {
                        assert(gv.nodes.contains(gv.nodes[i as int]));
                        assert(gv.children.contains_key(p));
                        sequences::lemma_flat_split(gv.nodes, block, i as int);
                        assert(full =~= log.push(p) + (children@ + later));
                        assert(gv.nodes.take(i + 1) =~= ns1);
                    }
                    let ghost recorded0 = value_recorder.recorded@;
                    let ghost values0 = value_recorder.node_values@;
                    let parent_value = match value_recorder.ask(
                        parent,
                        Ghost(log),
                        Ghost(children@ + later),
                    ) {
                        Ok(value) => value,
                        Err(error) => {
                            return Err(error);
                        },
                    };
                    proof {
                        let values = value_recorder.node_values@;
                        lemma_values_kept(recorded0, ns, es, values0, values);
                        assert(value_nodes(ns1, values) =~= value_nodes(ns, values).push(
                            parent_value,
                        ));
                        assert(es + out.take(0) =~= es);
                        assert(log.push(p) + children@.take(0) =~= log.push(p));
                    }
                    graph::enter(
                        &mut value_adj,
                        keys::copy_key(&parent_value),
                        Ghost(value_nodes(ns, value_recorder.node_values@)),
                        Ghost(value_edges(es, value_recorder.node_values@)),
                    );
                    let mut j: usize = 0;
                    while j < children.len()
                        invariant
                            keys::key_model::<N>(),
                            keys::key_model::<V>(),
                            gv.canonical(),
                            forall|n: N| #[trigger]
                                gv.nodes.contains(n) ==> call_requires(*value_fn, (&n,)),
                            sequences::distinct(full) == visit_order(g.graph@, g.start_node),
                            full == log.push(p) + (children@ + later),
                            gv.children.contains_key(p),
                            children@ == gv.children[p],
                            out == children@.map_values(|child: N| (p, child)),
                            ns1 == ns.push(p),
                            0 <= j <= children@.len(),
                            value_recorder.asked::<E>(
                                value_fn,
                                log.push(p) + children@.take(j as int),
                            ),
                            value_recorder.recorded@.contains(start),
                            value_recorder.node_values@[start] == start_value,
                            value_recorder.node_values@[p] == parent_value,
                            covers(value_recorder.recorded@, ns1, es + out.take(j as int)),
                            graph::gathers(
                                value_adj,
                                value_nodes(ns1, value_recorder.node_values@),
                                value_edges(
                                    es + out.take(j as int),
                                    value_recorder.node_values@,
                                ),
                            ),
                        decreases children@.len() - j,
                    {
                        let ghost es1 = es + out.take(j as int);
                        let ghost log1 = log.push(p) + children@.take(j as int);
                        match children.get_index(j) {
                            Some(child) => {
                                let ghost c = *child;
                                let ghost recorded0 = value_recorder.recorded@;
                                let ghost values0 = value_recorder.node_values@;
                                let ghost rest = children@.skip(j + 1) + later;
                                proof {
                                    assert(gv.has_edge(p, c));
                                    assert(full =~= log1.push(c) + rest);
                                    assert(log.push(p) + children@.take(j + 1) =~= log1.push(c));
                                    assert(es + out.take(j + 1) =~= es1.push((p, c)));
                                }
                                let child_value = match value_recorder.ask(
                                    child,
                                    Ghost(log1),
                                    Ghost(rest),
                                ) {
                                    Ok(value) => value,
                                    Err(error) => {
                                        return Err(error);
                                    },
                                };
                                let ghost values = value_recorder.node_values@;
                                proof {
                                    lemma_values_kept(recorded0, ns1, es1, values0, values);
                                    assert(recorded0.contains(ns1[ns1.len() - 1]));
                                    assert(value_edges(es1.push((p, c)), values) =~= value_edges(
                                        es1,
                                        values,
                                    ).push((parent_value, child_value)));
                                    assert(value_nodes(ns1, values)[ns1.len() - 1]
                                        == parent_value);
                                    assert(value_nodes(ns1, values).contains(parent_value));
                                }
                                graph::link(
                                    &mut value_adj,
                                    keys::copy_key(&parent_value),
                                    child_value,
                                    Ghost(value_nodes(ns1, values)),
                                    Ghost(value_edges(es1, values)),
                                );
                                proof {
                                    graph::lemma_head_again(
                                        value_adj,
                                        value_nodes(ns1, values),
                                        value_edges(es1.push((p, c)), values),
                                        parent_value,
                                    );
                                }
                            },
                            None => {},
                        }
                        j += 1;
                    }
                    proof {
                        assert(children@.take(j as int) =~= children@);
                        assert(out.take(j as int) =~= out);
                        gv.nodes.lemma_flat_map_take_append(part, i as int);
                        gv.nodes.lemma_flat_map_take_append(block, i as int);
                        assert(log.push(p) + children@ =~= seq![start] + gv.nodes.take(
                            i + 1,
                        ).flat_map(block));
                    }
                },
                None => {},
            }
            i += 1;
        }
        let ghost values = value_recorder.node_values@;
        proof {
            assert(gv.nodes.take(i as int) =~= gv.nodes);
            lemma_value_graph_canonical(gv, values);
            graph::lemma_gathers(
                value_adj,
                value_nodes(gv.nodes, values),
                value_edges(gv.edges(), values),
            );
            graph::law_canonical_graph_is_complete(value_graph(gv, values));
            assert forall|n: N|
                value_recorder.recorded@.contains(n) <==> gv.nodes.contains(n) || n == start by {
                lemma_visits_all(gv, start, n);
            }
            assert(value_graph(gv, values).nodes.contains(start_value)) by {
                let n = if gv.nodes.contains(start) {
                    start
                } else {
                    choose|n: N| #[trigger]
                        gv.nodes.contains(n) && gives_only::<N, V, E, VF>(
                            *value_fn,
                            n,
                            start_value,
                        )
                };
                assert(value_recorder.recorded@.contains(n));
                assert(values[n] == start_value);
                assert(value_nodes(gv.nodes, values)[gv.nodes.index_of(n)] == start_value);
                sequences::lemma_distinct_contains(value_nodes(gv.nodes, values), start_value);
            }
        }
        let value_graph = SimpleDirectedGraph::new(value_adj);
        let value_flow_graph = FlowGraph { graph: value_graph, start_node: start_value };
        let (node_values, value_to_nodes) = value_recorder.done();
        let result = ValueFlowGraph { value_flow_graph, node_values, value_to_nodes };
        proof {
            value_laws::law_flow_graph_of_values(*g, result);
            value_laws::law_nodes_are_listed_once_by_value(*g, result);
        }
        Ok(result)
    }

    /// Finds the dominator value: the closest common dominator of the values of the final nodes,
    /// with the value of the start node singled out by a virtual entry node.
    ///
    /// Returns an error if a final node has no value.
    pub fn find_dominator_value(&self, final_nodes: &[N]) -> (result: Result<
        Option<V>,
        FlowGraphError,
    >)
        requires
            keys::key_model::<N>(),
            keys::key_model::<V>(),
            self.value_flow_graph.wf(),
        ensures
            match result {
                Ok(value) => {
                    &&& self.knows(final_nodes@)
                    &&& self.value_flow_graph.is_answer(
                        value_nodes(final_nodes@, self.node_values@),
                        value,
                    )
                    &&& value is Some ==> ways::guards_all(
                        set![self.value_flow_graph.start_node],
                        self.value_flow_graph.graph@.edges(),
                        value->0,
                        final_nodes@.map_values(|f: N| self.node_values@[f]),
                    )
                },
                Err(error) => {
                    &&& error == FlowGraphError::FinalNodeNotFound
                    &&& !self.knows(final_nodes@)
                },
            },
    {
        broadcast use vstd::std_specs::hash::group_hash_axioms;

        let mut final_values: Vec<V> = Vec::new();
        let mut i: usize = 0;
        while i < final_nodes.len()
            invariant
                keys::key_model::<N>(),
                keys::key_model::<V>(),
                0 <= i <= final_nodes@.len(),
                self.knows(final_nodes@.take(i as int)),
                final_values@ == value_nodes(final_nodes@.take(i as int), self.node_values@),
            decreases final_nodes@.len() - i,
        {
            assert(final_nodes@.take(i + 1) =~= final_nodes@.take(i as int).push(
                final_nodes@[i as int],
            ));
            match self.node_values.get(&final_nodes[i]) {
                Some(value) => {
                    final_values.push(keys::copy_key(value));
                },
                None => {
                    assert(!self.node_values@.contains_key(final_nodes@[i as int]));
                    return Err(FlowGraphError::FinalNodeNotFound);
                },
            }
            i += 1;
        }
        assert(final_nodes@.take(i as int) =~= final_nodes@);
        let value = self.value_flow_graph.find_closest_common_dominator(final_values);
        proof {
            value_laws::law_dominator_value_is_on_every_way(*self, final_nodes@, value);
        }
        Ok(value)
    }
}

impl<N: Hash + Eq + Clone, V: Hash + Eq + Clone> Clone for ValueFlowGraph<N, V> {
    fn clone(&self) -> (result: Self)
        ensures
            result.node_values@ == self.node_values@,
            result.value_to_nodes@ == self.value_to_nodes@,
            keys::key_model::<V>() ==> result.value_flow_graph.graph@
                == self.value_flow_graph.graph@ && result.value_flow_graph.start_node
                == self.value_flow_graph.start_node,
    {
        ValueFlowGraph {
            value_flow_graph: self.value_flow_graph.clone(),
            node_values: self.node_values.clone(),
            value_to_nodes: self.value_to_nodes.clone(),
        }
    }
}

} // verus!
