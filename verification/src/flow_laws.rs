//! Laws of flow graphs: when there is a common dominator.

use crate::augmented;
use crate::flow;
use crate::flow::FlowGraph;
use crate::graph::GraphView;
use crate::graph_laws;
use crate::keys;
use crate::ways;
use std::hash::Hash;
use vstd::prelude::*;
use vstd::std_specs::cmp::PartialEqSpec;

verus! {

/// The start node dominates all of the given nodes.
pub open spec fn start_dominates_all<N>(flow_graph: FlowGraph<N>, nodes: Seq<N>) -> bool {
    forall|i: int|
        0 <= i < nodes.len() ==> flow_graph.entered().dominates(
            Some(flow_graph.start_node),
            Some(#[trigger] nodes[i]),
        )
}

/// Every node leads to itself.
pub proof fn lemma_leads_to_itself<N>(g: GraphView<N>, a: N)
    ensures
        g.leads(a, a),
{
    assert(g.is_path_between(seq![a], a, a));
}

/// What a node leads to has edges to what it leads to as well.
pub proof fn lemma_leads_further<N>(g: GraphView<N>, a: N, b: N, c: N)
    requires
        g.leads(a, b),
        g.has_edge(b, c),
    ensures
        g.leads(a, c),
{
    let p = choose|p: Seq<N>| g.is_path_between(p, a, b);
    let q = p.push(c);
    assert forall|i: int| 0 <= i < q.len() - 1 implies #[trigger] g.follows_edge(q, i) by {
        if i < p.len() - 1 {
            assert(g.follows_edge(p, i));
        }
    }
    assert(g.is_path_between(q, a, c));
}

/// Where a node leads to another, it leads to what that leads to.
pub proof fn lemma_leads_on<N>(g: GraphView<N>, a: N, b: N, c: N)
    requires
        g.leads(a, b),
        g.leads(b, c),
    ensures
        g.leads(a, c),
{
    let p = choose|p: Seq<N>| g.is_path_between(p, a, b);
    let q = choose|q: Seq<N>| g.is_path_between(q, b, c);
    let r = p + q.skip(1);
    assert forall|i: int| 0 <= i < r.len() - 1 implies #[trigger] g.follows_edge(r, i) by {
        if i < p.len() - 1 {
            assert(g.follows_edge(p, i));
        } else {
            assert(g.follows_edge(q, i - p.len() + 1));
        }
    }
    if q.len() == 1 {
        assert(r =~= p);
    } else {
        assert(r.last() == q.last());
    }
    assert(g.is_path_between(r, a, c));
}

/// A node leads to what its children lead to.
pub proof fn lemma_leads_before<N>(g: GraphView<N>, a: N, b: N, c: N)
    requires
        g.has_edge(a, b),
        g.leads(b, c),
    ensures
        g.leads(a, c),
{
    lemma_leads_to_itself(g, a);
    lemma_leads_further(g, a, a, b);
    lemma_leads_on(g, a, b, c);
}

/// A node to which edges lead from another node has a parent other than itself to which they
/// lead too.
pub proof fn lemma_led_to_has_parent<N>(g: GraphView<N>, a: N, b: N) -> (m: N)
    requires
        g.leads(a, b),
        a != b,
    ensures
        m != b,
        g.has_edge(m, b),
        g.leads(a, m),
{
    let p = choose|p: Seq<N>| g.is_path_between(p, a, b);
    lemma_enters(g, p, a, b)
}

/// A path from elsewhere enters its last node by an edge from another node on it.
proof fn lemma_enters<N>(g: GraphView<N>, p: Seq<N>, a: N, b: N) -> (m: N)
    requires
        g.is_path_between(p, a, b),
        a != b,
    ensures
        m != b,
        g.has_edge(m, b),
        g.leads(a, m),
    decreases p.len(),
{
    let q = p.drop_last();
    assert(g.follows_edge(p, p.len() - 2));
    assert forall|i: int| 0 <= i < q.len() - 1 implies #[trigger] g.follows_edge(q, i) by {
        assert(g.follows_edge(p, i));
    }
    assert(g.is_path_between(q, a, q.last()));
    if q.last() == b {
        lemma_enters(g, q, a, b)
    } else {
        q.last()
    }
}

/// What the start node leads to can be reached from the virtual entry.
proof fn lemma_path_reachable<N>(g: GraphView<N>, start: N, p: Seq<N>)
    requires
        p.len() > 0,
        p[0] == start,
        g.is_path(p),
    ensures
        flow::entered(g, start).reachable(Some(p.last())),
    decreases p.len(),
{
    let h = flow::entered(g, start);
    if p.len() == 1 {
        h.lemma_root_reachable();
        h.lemma_walk_push(seq![h.root], h.root, Some(start));
    } else {
        let q = p.drop_last();
        assert forall|i: int| 0 <= i < q.len() - 1 implies #[trigger] g.follows_edge(q, i) by {
            assert(g.follows_edge(p, i));
        }
        lemma_path_reachable(g, start, q);
        assert(g.follows_edge(p, p.len() - 2));
        if q.last() != p.last() {
            let w = choose|w: Seq<Option<N>>| h.walk_to(w, Some(q.last()));
            h.lemma_walk_push(w, Some(q.last()), Some(p.last()));
        }
    }
}

/// What can be reached from the virtual entry is what the start node leads to.
pub proof fn lemma_reachable_is_led_to<N>(g: GraphView<N>, start: N, n: N)
    ensures
        flow::entered(g, start).reachable(Some(n)) <==> g.leads(start, n),
{
    let h = flow::entered(g, start);
    let end = Some(n);
    if h.reachable(end) {
        let p = choose|p: Seq<Option<N>>| h.walk_to(p, end);
        let q = Seq::new((p.len() - 1) as nat, |i: int| p[i + 1]->0);
        assert forall|i: int| 0 < i < p.len() implies #[trigger] p[i] is Some by {
            assert(h.step(p, i - 1));
        }
        assert(h.step(p, 0));
        assert forall|i: int| 0 <= i < q.len() - 1 implies #[trigger] g.follows_edge(q, i) by {
            assert(h.step(p, i + 1));
            assert(p[i + 1] is Some && p[i + 2] is Some);
        }
        assert(g.is_path_between(q, start, n));
    }
    if g.leads(start, n) {
        let p = choose|p: Seq<N>| g.is_path_between(p, start, n);
        lemma_path_reachable(g, start, p);
    }
}

/// The start node dominates exactly the nodes that it leads to.
pub proof fn law_start_dominates_what_it_leads_to<N>(g: GraphView<N>, start: N, n: N)
    ensures
        flow::entered(g, start).dominates(Some(start), Some(n)) <==> g.leads(start, n),
{
    let h = flow::entered(g, start);
    lemma_reachable_is_led_to(g, start, n);
    assert forall|p: Seq<Option<N>>| #[trigger] h.walk_to(p, Some(n)) implies p.contains(
        Some(start),
    ) by {
        assert(h.step(p, 0));
        assert(p[1] == Some(start));
    }
    if n == start {
        lemma_leads_to_itself(g, start);
    }
}

/// If the start node dominates all final nodes, at least one, then they have a closest common
/// dominator in the graph, and the start node dominates it.
pub proof fn law_start_gives_common_dominator<N>(
    flow_graph: FlowGraph<N>,
    finals: Seq<N>,
    result: Option<N>,
)
    requires
        flow_graph.graph@.nodes.contains(flow_graph.start_node),
        finals.len() > 0,
        flow_graph.knows(finals),
        flow_graph.is_answer(finals, result),
        start_dominates_all(flow_graph, finals),
    ensures
        result is Some,
        flow_graph.entered().dominates(Some(flow_graph.start_node), result),
{
    let g = flow_graph.graph@;
    let h = flow_graph.entered();
    let start = flow_graph.start_node;
    let targets = augmented::targets_of(finals);
    assert(finals.contains(finals[0]));
    assert(targets.contains(Some(finals[0])));
    assert forall|i: int| 0 <= i < finals.len() implies g.leads(start, #[trigger] finals[i]) by {
        law_start_dominates_what_it_leads_to(g, start, finals[i]);
    }
    assert forall|t: Option<N>| #[trigger] targets.contains(t) implies h.dominates(
        Some(start),
        t,
    ) by {
        let i = finals.index_of(t->0);
        assert(h.dominates(Some(start), Some(finals[i])));
    }
    h.law_common_dominators_dominate_closest(targets, Some(finals[0]), result, Some(start));
}

/// Final nodes of the graph, at least one, have no common dominator if and only if the start node
/// does not dominate all of them.
pub proof fn law_no_common_dominator_without_start<N>(
    flow_graph: FlowGraph<N>,
    finals: Seq<N>,
    result: Option<N>,
)
    requires
        flow_graph.graph@.nodes.contains(flow_graph.start_node),
        finals.len() > 0,
        flow_graph.knows(finals),
        flow_graph.is_answer(finals, result),
    ensures
        result is None <==> !start_dominates_all(flow_graph, finals),
{
    let g = flow_graph.graph@;
    let start = flow_graph.start_node;
    assert forall|i: int| 0 <= i < finals.len() implies (flow_graph.entered().dominates(
        Some(start),
        Some(#[trigger] finals[i]),
    ) <==> g.leads(start, finals[i])) by {
        law_start_dominates_what_it_leads_to(g, start, finals[i]);
    }
}

/// There is at most one answer.
pub proof fn law_answer_unique<N>(
    flow_graph: FlowGraph<N>,
    finals: Seq<N>,
    a: Option<N>,
    b: Option<N>,
)
    requires
        flow_graph.is_answer(finals, a),
        flow_graph.is_answer(finals, b),
    ensures
        a == b,
{
    if flow_graph.leads_to_all(finals) {
        let targets = augmented::targets_of(finals);
        assert(finals.contains(finals[0]));
        assert(targets.contains(Some(finals[0])));
        flow_graph.entered().law_closest_common_dominator_unique(
            targets,
            Some(finals[0]),
            a,
            b,
        );
    }
}

/// If the start node is the only node to which no other node has an edge, the virtual entry is
/// that of the graph without a start node.
pub proof fn law_start_as_only_entry_is_ordinary<N>(g: GraphView<N>, start: N)
    requires
        g.canonical(),
        forall|n: N| #[trigger]
            augmented::is_entry(g.nodes, g.edges(), n) <==> n == start,
    ensures
        flow::entered(g, start) == augmented::augmented(g.nodes, g.edges()),
{
    let h = augmented::augmented(g.nodes, g.edges());
    assert forall|e: (Option<N>, Option<N>)|
        flow::entered(g, start).edges.contains(e) <==> h.edges.contains(e) by {
        if e.0 is Some && e.1 is Some {
            graph_laws::law_edges_are_listed(g, e.0->0, e.1->0);
        }
    }
    assert(flow::entered(g, start).edges =~= h.edges);
}

/// Edges lead from a node to itself and, with every node that they lead to, to its children. They
/// lead nowhere else.
pub proof fn law_leads_is_least<N>(g: GraphView<N>, a: N, closed: Set<N>)
    requires
        closed.contains(a),
        forall|b: N, c: N| closed.contains(b) && #[trigger] g.has_edge(b, c) ==> closed.contains(c),
    ensures
        g.leads(a, a),
        forall|b: N, c: N| g.leads(a, b) && #[trigger] g.has_edge(b, c) ==> g.leads(a, c),
        forall|b: N| #[trigger] g.leads(a, b) ==> closed.contains(b),
{
    lemma_leads_to_itself(g, a);
    assert forall|b: N, c: N| g.leads(a, b) && #[trigger] g.has_edge(b, c) implies g.leads(
        a,
        c,
    ) by {
        lemma_leads_further(g, a, b, c);
    }
    assert forall|b: N| #[trigger] g.leads(a, b) implies closed.contains(b) by {
        let p = choose|p: Seq<N>| g.is_path_between(p, a, b);
        lemma_path_stays(g, p, closed);
    }
}

/// A path does not leave what is closed under edges.
proof fn lemma_path_stays<N>(g: GraphView<N>, p: Seq<N>, closed: Set<N>)
    requires
        p.len() > 0,
        closed.contains(p[0]),
        g.is_path(p),
        forall|b: N, c: N| closed.contains(b) && #[trigger] g.has_edge(b, c) ==> closed.contains(c),
    ensures
        closed.contains(p.last()),
    decreases p.len(),
{
    if p.len() > 1 {
        let q = p.drop_last();
        assert forall|i: int| 0 <= i < q.len() - 1 implies #[trigger] g.follows_edge(q, i) by {
            assert(g.follows_edge(p, i));
        }
        lemma_path_stays(g, q, closed);
        assert(g.follows_edge(p, p.len() - 2));
    }
}

/// The virtual entry of a flow graph leads to the start node alone.
proof fn lemma_entered_leads_to_start<N>(g: GraphView<N>, start: N)
    requires
        g.canonical(),
    ensures
        ways::leads_to_entries(flow::entered(g, start), set![start], g.edges()),
{
    let h = flow::entered(g, start);
    assert forall|a: Option<N>, b: Option<N>| #[trigger] h.edges.contains((a, b)) <==> match (
        a,
        b,
    ) {
        (None, Some(y)) => set![start].contains(y),
        (Some(x), Some(y)) => x != y && g.edges().contains((x, y)),
        (_, None) => false,
    } by {
        if a is Some && b is Some {
            graph_laws::law_edges_are_listed(g, a->0, b->0);
        }
    }
}

/// There is an answer if and only if there is a final node, the start node is in the graph, and
/// every final node is in the graph and has a way from the start node to it.
///
/// The answer is then a node that is on every way from the start node to a final node, and every
/// other such node is on every way from the start node to the answer.
pub proof fn law_answer_is_on_every_way<N>(
    flow_graph: FlowGraph<N>,
    finals: Seq<N>,
    result: Option<N>,
)
    requires
        flow_graph.wf(),
        flow_graph.is_answer(finals, result),
    ensures
        ({
            let start = set![flow_graph.start_node];
            let edges = flow_graph.graph@.edges();
            let nodes = flow_graph.graph@.nodes;
            &&& result is Some <==> {
                &&& finals.len() > 0
                &&& nodes.contains(flow_graph.start_node)
                &&& forall|f: N| #[trigger]
                    finals.contains(f) ==> nodes.contains(f) && ways::has_way(start, edges, f)
            }
            &&& result is Some ==> {
                &&& nodes.contains(result->0)
                &&& ways::has_way(start, edges, result->0)
                &&& ways::guards_all(start, edges, result->0, finals)
                &&& forall|y: N| #[trigger]
                    ways::guards_all(start, edges, y, finals) ==> ways::guards(
                        start,
                        edges,
                        y,
                        result->0,
                    )
            }
        }),
{
    let g = flow_graph.graph@;
    let s = flow_graph.start_node;
    let start = set![s];
    let edges = g.edges();
    let h = flow_graph.entered();
    lemma_entered_leads_to_start(g, s);
    assert forall|f: N| #[trigger] ways::has_way(start, edges, f) <==> g.leads(s, f) by {
        ways::lemma_reachable_has_way(h, start, edges, f);
        lemma_reachable_is_led_to(g, s, f);
    }
    if flow_graph.leads_to_all(finals) {
        assert forall|f: N| #[trigger] finals.contains(f) implies g.nodes.contains(f)
            && ways::has_way(start, edges, f) by {
            let i = finals.index_of(f);
            assert(g.nodes.contains(finals[i]) && g.leads(s, finals[i]));
        }
    }
    if finals.len() > 0 && g.nodes.contains(s) && forall|f: N| #[trigger]
        finals.contains(f) ==> g.nodes.contains(f) && ways::has_way(start, edges, f) {
        assert forall|i: int| 0 <= i < finals.len() implies g.nodes.contains(#[trigger] finals[i])
            && g.leads(s, finals[i]) by {
            assert(finals.contains(finals[i]));
        }
        assert(flow_graph.leads_to_all(finals));
    }
    if result is Some {
        let z = result->0;
        let f = finals[0];
        ways::lemma_closest_guards(h, start, edges, finals, augmented::targets_of(finals), result);
        assert(finals.contains(f));
        assert(ways::has_way(start, edges, f) && ways::guards(start, edges, z, f));
        let p = choose|p: Seq<N>| ways::is_way(start, edges, p, f);
        assert(p.contains(z));
        let i = p.index_of(z);
        let q = p.take(i + 1);
        assert(ways::along(edges, q)) by {
            assert forall|i: int, j: int| 0 <= i && j == i + 1 && j < q.len() implies edges.contains(
                (#[trigger] q[i], #[trigger] q[j]),
            ) by {
                assert(q[i] == p[i] && q[j] == p[j]);
            }
        }
        assert(ways::is_way(start, edges, q, z));
        if i > 0 {
            assert(edges.contains((p[i - 1], p[i])));
            graph_laws::law_edges_are_listed(g, p[i - 1], p[i]);
        }
    }
}

/// `==` on flow graphs: two flow graphs are equal if and only if they have the same nodes and the
/// same edges, in whatever order, and start at the same node.
pub proof fn law_flow_graph_equality<N: Hash + Eq + Clone>(a: FlowGraph<N>, b: FlowGraph<N>)
    requires
        keys::key_model::<N>(),
        a.wf(),
        b.wf(),
    ensures
        FlowGraph::<N>::obeys_eq_spec(),
        a.eq_spec(&b) <==> {
            &&& a.start_node == b.start_node
            &&& forall|n: N| #[trigger]
                a.graph@.nodes.contains(n) <==> b.graph@.nodes.contains(n)
            &&& forall|m: N, n: N| #[trigger]
                a.graph@.edges().contains((m, n)) <==> b.graph@.edges().contains((m, n))
        },
{
    graph_laws::law_graph_equality(a.graph, b.graph);
    assert(a.graph.eq_spec(&b.graph) <==> a.graph@.same_children(b.graph@));
}

} // verus!
