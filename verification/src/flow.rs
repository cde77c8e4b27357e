//! Directed graphs with a start node.

use crate::augmented;
use crate::dominance::RootedGraph;
use crate::errors::FlowGraphError;
use crate::finder;
use crate::flow_laws;
use crate::graph;
use crate::graph::GraphView;
use crate::graph::SimpleDirectedGraph;
use crate::keys;
use crate::merge;
use crate::sequences;
use crate::ways;
use std::hash::Hash;
use vstd::prelude::*;

verus! {

/// The graph with a virtual entry node, `None`, that leads to the start node and to no other.
/// Edges from a node to itself are left out.
pub open spec fn entered<N>(g: GraphView<N>, start: N) -> RootedGraph<Option<N>> {
    RootedGraph {
        root: None,
        edges: Set::new(
            |e: (Option<N>, Option<N>)|
                match e {
                    (None, Some(b)) => b == start,
                    (Some(a), Some(b)) => a != b && g.has_edge(a, b),
                    (_, None) => false,
                },
        ),
    }
}

/// A directed graph with a designated start node.
///
/// Any node can be the start node. Nodes may be out of its reach, it may have incoming edges,
/// and the graph may fall apart.
#[verifier::reject_recursive_types(N)]
pub struct FlowGraph<N> {
    /// The graph.
    pub graph: SimpleDirectedGraph<N>,
    /// The start node.
    pub start_node: N,
}

impl<N> FlowGraph<N> {
    /// The graph is in canonical form.
    pub open spec fn wf(&self) -> bool {
        self.graph.wf()
    }

    /// The given nodes are in the graph.
    pub open spec fn knows(&self, nodes: Seq<N>) -> bool {
        forall|i: int| 0 <= i < nodes.len() ==> self.graph@.nodes.contains(#[trigger] nodes[i])
    }

    /// There is a final node, the start node and all final nodes are in the graph, and edges lead
    /// from the start node to every final node.
    pub open spec fn leads_to_all(&self, finals: Seq<N>) -> bool {
        &&& finals.len() > 0
        &&& self.graph@.nodes.contains(self.start_node)
        &&& self.knows(finals)
        &&& forall|i: int|
            0 <= i < finals.len() ==> self.graph@.leads(self.start_node, #[trigger] finals[i])
    }

    /// What the search for a closest common dominator finds: a node if and only if edges lead
    /// from the start node to every final node, and then their closest common dominator.
    pub open spec fn is_answer(&self, finals: Seq<N>, result: Option<N>) -> bool {
        &&& result is Some <==> self.leads_to_all(finals)
        &&& result is Some ==> self.entered().is_closest_common_dominator(
            augmented::targets_of(finals),
            result,
        )
    }

    /// The graph with its virtual entry node.
    pub open spec fn entered(&self) -> RootedGraph<Option<N>> {
        entered(self.graph@, self.start_node)
    }
}

/// The image of the numbered graph: a number stands for the node with that number, and both
/// entry nodes stand for the virtual entry.
spec fn unnumbered<N>(g: GraphView<N>, id: Option<usize>) -> Option<N> {
    if id is Some && id->0 < g.nodes.len() {
        Some(g.nodes[id->0 as int])
    } else {
        None
    }
}

/// The node with the given number is one that the start node leads to.
spec fn in_reach<N>(g: GraphView<N>, start: N, id: usize) -> bool {
    id < g.nodes.len() && g.leads(start, g.nodes[id as int])
}

/// The numbers of the nodes that the start node leads to.
spec fn numbers<N>(g: GraphView<N>, start: N) -> Set<Option<usize>> {
    Set::new(|id: Option<usize>| id is Some && in_reach(g, start, id->0))
}

/// `ids` are the numbers of the nodes that the start node leads to, with one more for the node
/// that leads to the start node. `edges` are the edges between them.
spec fn numbered<N>(
    g: GraphView<N>,
    start: N,
    ids: Seq<usize>,
    edges: Seq<(usize, usize)>,
) -> bool {
    &&& g.nodes.len() <= usize::MAX
    &&& g.nodes.contains(start)
    &&& forall|id: usize| #[trigger]
        ids.contains(id) <==> in_reach(g, start, id) || id == g.nodes.len()
    &&& forall|a: usize, b: usize| #[trigger]
        edges.contains((a, b)) <==> {
            ||| in_reach(g, start, a) && b < g.nodes.len() && g.has_edge(
                g.nodes[a as int],
                g.nodes[b as int],
            )
            ||| a == g.nodes.len() && b < g.nodes.len() && g.nodes[b as int] == start
        }
}

/// The numbered graph has an entry, and merging its two entry nodes gives the graph with its
/// virtual entry node, as far as that leads.
proof fn lemma_numbered<N>(
    g: GraphView<N>,
    start: N,
    ids: Seq<usize>,
    edges: Seq<(usize, usize)>,
)
    requires
        g.canonical(),
        numbered(g, start, ids, edges),
    ensures
        augmented::knows_edges(ids, edges),
        augmented::has_entry(ids, edges),
        merge::merges(
            augmented::augmented(ids, edges),
            entered(g, start),
            Some(g.nodes.len() as usize),
            |id: Option<usize>| unnumbered(g, id),
            numbers(g, start),
        ),
{
    let m = g.nodes.len() as usize;
    let big = augmented::augmented(ids, edges);
    let small = entered(g, start);
    let f = |id: Option<usize>| unnumbered(g, id);
    let nodes = numbers(g, start);
    let s = g.nodes.index_of(start) as usize;
    flow_laws::lemma_leads_to_itself(g, start);
    assert(edges.contains((m, s)));
    assert forall|a: usize, b: usize| #[trigger] edges.contains((a, b)) implies in_reach(
        g,
        start,
        b,
    ) by {
        if a < m {
            flow_laws::lemma_leads_further(g, start, g.nodes[a as int], g.nodes[b as int]);
        }
    }
    assert forall|i: int| 0 <= i < edges.len() implies ids.contains((#[trigger] edges[i]).0)
        && ids.contains(edges[i].1) by {
        assert(edges.contains((edges[i].0, edges[i].1)));
    }
    assert(augmented::is_entry(ids, edges, m)) by {
        assert(ids.contains(m));
    }
    assert forall|b: usize| #[trigger] augmented::is_entry(ids, edges, b) implies b == m by {
        assert(ids.contains(b));
        if b != m {
            let n = g.nodes[b as int];
            if n == start {
                assert(edges.contains((m, b)));
            } else {
                let k = flow_laws::lemma_led_to_has_parent(g, start, n);
                assert(g.children.contains_key(k));
                let a = g.nodes.index_of(k) as usize;
                assert(in_reach(g, start, a));
                assert(edges.contains((a, b)));
            }
        }
    }
    assert forall|a: Option<usize>, b: Option<usize>| #[trigger]
        big.edges.contains((a, b)) implies (a == big.root || a == Some(m) || nodes.contains(a)) && (
    b == Some(m) || nodes.contains(b) && small.edges.contains((f(a), f(b)))) by {
        if a is Some {
            assert(edges.contains((a->0, b->0)));
        } else {
            assert(augmented::is_entry(ids, edges, b->0));
        }
    }
    assert forall|a: Option<usize>| #[trigger] big.edges.contains((a, Some(m))) implies a
        == big.root by {
        if a is Some {
            assert(edges.contains((a->0, m)));
        }
    }
    assert forall|c: Option<N>, d: Option<N>| #[trigger]
        small.edges.contains((c, d)) && small.reachable(c) implies exists|
        a: Option<usize>,
        b: Option<usize>,
    | #[trigger]
        big.edges.contains((a, b)) && nodes.contains(b) && f(a) == c && f(b) == d by {
        if c is Some {
            flow_laws::lemma_reachable_is_led_to(g, start, c->0);
            assert(g.has_edge(c->0, d->0));
            assert(g.children.contains_key(c->0));
            let a = g.nodes.index_of(c->0) as usize;
            let b = g.nodes.index_of(d->0) as usize;
            assert(in_reach(g, start, a));
            assert(edges.contains((a, b)));
            assert(big.edges.contains((Some(a), Some(b))) && nodes.contains(Some(b)) && f(Some(a))
                == c && f(Some(b)) == d);
        } else {
            assert(big.edges.contains((Some(m), Some(s))) && nodes.contains(Some(s)) && f(Some(m))
                == c && f(Some(s)) == d);
        }
    }
    assert(big.edges.contains((big.root, Some(m))));
}

/// What the search from the start node has found: `ids` are numbers of nodes that the start node
/// leads to, `edges` are the edges out of the first `k` of them, and `found` tells for each number
/// whether it is among them.
spec fn searched<N>(
    g: GraphView<N>,
    start: N,
    ids: Seq<usize>,
    edges: Seq<(usize, usize)>,
    found: Seq<bool>,
    k: int,
) -> bool {
    &&& found.len() == g.nodes.len()
    &&& ids.no_duplicates()
    &&& ids.len() > 0
    &&& g.nodes[ids[0] as int] == start
    &&& forall|id: usize| #[trigger] ids.contains(id) ==> in_reach(g, start, id)
    &&& forall|id: usize| #[trigger]
        ids.contains(id) <==> id < g.nodes.len() && found[id as int]
    &&& forall|a: usize, b: usize| #[trigger]
        edges.contains((a, b)) <==> ids.take(k).contains(a) && b < g.nodes.len() && g.has_edge(
            g.nodes[a as int],
            g.nodes[b as int],
        )
    &&& forall|a: usize, b: usize| #[trigger] edges.contains((a, b)) ==> ids.contains(b)
}

/// The search finds no more numbers than there are nodes.
proof fn lemma_searched_room<N>(g: GraphView<N>, start: N, ids: Seq<usize>)
    requires
        g.nodes.len() <= usize::MAX,
        ids.no_duplicates(),
        forall|id: usize| #[trigger] ids.contains(id) ==> in_reach(g, start, id),
    ensures
        ids.len() <= g.nodes.len(),
{
    let all = Seq::new(g.nodes.len(), |i: int| i as usize);
    assert forall|id: usize| #[trigger] ids.contains(id) implies all.contains(id) by {
        assert(in_reach(g, start, id));
        assert(all[id as int] == id);
    }
    sequences::lemma_no_longer(ids, all);
}

/// A complete search has found every node that the start node leads to.
proof fn lemma_searched_all<N>(
    g: GraphView<N>,
    start: N,
    ids: Seq<usize>,
    edges: Seq<(usize, usize)>,
    found: Seq<bool>,
    p: Seq<N>,
)
    requires
        g.canonical(),
        g.nodes.len() <= usize::MAX,
        searched(g, start, ids, edges, found, ids.len() as int),
        p.len() > 0,
        p[0] == start,
        g.is_path(p),
    ensures
        exists|id: usize| #[trigger] ids.contains(id) && g.nodes[id as int] == p.last(),
    decreases p.len(),
{
    if p.len() == 1 {
        assert(ids.contains(ids[0]) && g.nodes[ids[0] as int] == p.last());
    } else {
        let q = p.drop_last();
        assert forall|i: int| 0 <= i < q.len() - 1 implies #[trigger] g.follows_edge(q, i) by {
            assert(g.follows_edge(p, i));
        }
        lemma_searched_all(g, start, ids, edges, found, q);
        let a = choose|id: usize| #[trigger] ids.contains(id) && g.nodes[id as int] == q.last();
        assert(g.follows_edge(p, p.len() - 2));
        assert(g.has_edge(q.last(), p.last()));
        let b = g.nodes.index_of(p.last()) as usize;
        assert(ids.take(ids.len() as int) =~= ids);
        assert(edges.contains((a, b)));
        assert(ids.contains(b) && g.nodes[b as int] == p.last());
    }
}

impl<N: Hash + Eq + Clone> FlowGraph<N> {
    /// Makes a flow graph.
    ///
    /// Returns an error if the start node is not in the graph.
    pub fn new(graph: SimpleDirectedGraph<N>, start_node: N) -> (result: Result<
        Self,
        FlowGraphError,
    >)
        requires
            keys::key_model::<N>(),
            graph.wf(),
        ensures
            result == if graph@.nodes.contains(start_node) {
                Ok::<Self, FlowGraphError>(FlowGraph { graph, start_node })
            } else {
                Err::<Self, FlowGraphError>(FlowGraphError::StartNodeNotFound)
            },
    {
        if !graph.contains_node(&start_node) {
            return Err(FlowGraphError::StartNodeNotFound);
        }
        Ok(FlowGraph { graph, start_node })
    }

    /// Searches the graph from the start node, whose number is `start`: the numbers of the nodes
    /// that it leads to, the edges between them, and for each number whether it is among them.
    fn search_from_start(&self, start: usize) -> (result: (
        Vec<usize>,
        Vec<(usize, usize)>,
        Vec<bool>,
    ))
        requires
            keys::key_model::<N>(),
            self.wf(),
            start < self.graph@.nodes.len(),
            self.graph@.nodes[start as int] == self.start_node,
        ensures
            forall|id: usize| #[trigger]
                result.0@.contains(id) <==> in_reach(self.graph@, self.start_node, id),
            forall|a: usize, b: usize| #[trigger]
                result.1@.contains((a, b)) <==> in_reach(self.graph@, self.start_node, a) && b
                    < self.graph@.nodes.len() && self.graph@.has_edge(
                    self.graph@.nodes[a as int],
                    self.graph@.nodes[b as int],
                ),
            result.2@.len() == self.graph@.nodes.len(),
            forall|id: usize|
                id < self.graph@.nodes.len() ==> (#[trigger] result.2@[id as int] <==> in_reach(
                    self.graph@,
                    self.start_node,
                    id,
                )),
    {
        let adj = self.graph.adj();
        let ghost g = self.graph@;
        let ghost s = self.start_node;
        let mut ids: Vec<usize> = Vec::new();
        let mut edges: Vec<(usize, usize)> = Vec::new();
        let mut found: Vec<bool> = vec![false; adj.len()];
        ids.push(start);
        found.set(start, true);
        proof {
            flow_laws::lemma_leads_to_itself(g, s);
            assert forall|id: usize| #[trigger] ids@.contains(id) <==> id == start by {
                if id == start {
                    assert(ids@[0] == id);
                }
            }
            assert(ids@.take(0) =~= Seq::<usize>::empty());
        }
        let mut k: usize = 0;
        while k < ids.len()
            invariant
                keys::key_model::<N>(),
                g == self.graph@,
                s == self.start_node,
                g.canonical(),
                adj.wf(),
                graph::adjacency(*adj) == g,
                g.nodes.len() <= usize::MAX,
                0 <= k <= ids@.len(),
                ids@.len() <= g.nodes.len(),
                searched(g, s, ids@, edges@, found@, k as int),
            decreases g.nodes.len() - k,
        {
            let a = ids[k];
            assert(ids@.contains(a));
            let ghost before = edges@;
            let ghost done = ids@.take(k as int);
            match adj.get_index(a) {
                Some((parent, children)) => {
                    let mut j: usize = 0;
                    proof {
                        assert(g.nodes.contains(g.nodes[a as int]));
                        assert(g.children.contains_key(*parent));
                        assert(children@.take(0) =~= Seq::<N>::empty());
                    }
                    while j < children.len()
                        invariant
                            keys::key_model::<N>(),
                            g.canonical(),
                            adj.wf(),
                            graph::adjacency(*adj) == g,
                            g.nodes.len() <= usize::MAX,
                            0 <= k < ids@.len(),
                            ids@[k as int] == a,
                            a < g.nodes.len(),
                            in_reach(g, s, a),
                            *parent == g.nodes[a as int],
                            g.children.contains_key(*parent),
                            children@ == g.children[*parent],
                            0 <= j <= children@.len(),
                            ids@.take(k as int) == done,
                            found@.len() == g.nodes.len(),
                            ids@.no_duplicates(),
                            g.nodes[ids@[0] as int] == s,
                            forall|id: usize| #[trigger] ids@.contains(id) ==> in_reach(g, s, id),
                            forall|id: usize| #[trigger]
                                ids@.contains(id) <==> id < g.nodes.len() && found@[id as int],
                            forall|x: usize, b: usize| #[trigger]
                                before.contains((x, b)) <==> done.contains(x) && b
                                    < g.nodes.len() && g.has_edge(
                                    g.nodes[x as int],
                                    g.nodes[b as int],
                                ),
                            forall|x: usize, b: usize| #[trigger]
                                edges@.contains((x, b)) <==> before.contains((x, b)) || x == a && b
                                    < g.nodes.len() && children@.take(j as int).contains(
                                    g.nodes[b as int],
                                ),
                            forall|x: usize, b: usize| #[trigger]
                                edges@.contains((x, b)) ==> ids@.contains(b),
                        decreases children@.len() - j,
                    {
                        match children.get_index(j) {
                            Some(child) => {
                                assert(g.has_edge(*parent, *child));
                                match adj.get_index_of(child) {
                                    Some(c) => {
                                        let ghost edges0 = edges@;
                                        let ghost ids0 = ids@;
                                        let ghost seen = children@.take(j as int);
                                        if !found[c] {
                                            assert(!ids0.contains(c));
                                            found.set(c, true);
                                            ids.push(c);
                                        }
                                        edges.push((a, c));
                                        proof {
                                            assert(children@.take(j + 1) =~= seen.push(*child));
                                            flow_laws::lemma_leads_further(g, s, *parent, *child);
                                            assert(ids@.take(k as int) =~= done);
                                            assert forall|id: usize| #[trigger]
                                                ids@.contains(id) <==> ids0.contains(id) || id
                                                    == c by {
                                                sequences::lemma_contains_push(ids0, c, id);
                                            }
                                            assert forall|x: usize, b: usize| #[trigger]
                                                edges@.contains((x, b)) <==> before.contains(
                                                    (x, b),
                                                ) || x == a && b < g.nodes.len()
                                                    && children@.take(j + 1).contains(
                                                    g.nodes[b as int],
                                                ) by {
                                                sequences::lemma_contains_push(
                                                    edges0,
                                                    (a, c),
                                                    (x, b),
                                                );
                                                if b < g.nodes.len() {
                                                    sequences::lemma_contains_push(
                                                        seen,
                                                        *child,
                                                        g.nodes[b as int],
                                                    );
                                                }
                                            }
                                            assert forall|x: usize, b: usize| #[trigger]
                                                edges@.contains((x, b)) implies ids@.contains(
                                                b,
                                            ) by {
                                                sequences::lemma_contains_push(
                                                    edges0,
                                                    (a, c),
                                                    (x, b),
                                                );
                                            }
                                        }
                                    },
                                    None => {},
                                }
                            },
                            None => {},
                        }
                        j += 1;
                    }
                    proof {
                        assert(children@.take(j as int) =~= children@);
                        assert(ids@.take(k + 1) =~= done.push(a));
                        assert forall|x: usize, b: usize| #[trigger]
                            edges@.contains((x, b)) <==> ids@.take(k + 1).contains(x) && b
                                < g.nodes.len() && g.has_edge(
                                g.nodes[x as int],
                                g.nodes[b as int],
                            ) by {
                            sequences::lemma_contains_push(done, a, x);
                        }
                        lemma_searched_room(g, s, ids@);
                    }
                },
                None => {},
            }
            k += 1;
        }
        proof {
            assert(ids@.take(k as int) =~= ids@);
            assert forall|id: usize| in_reach(g, s, id) implies ids@.contains(id) by {
                let n = g.nodes[id as int];
                let p = choose|p: Seq<N>| g.is_path_between(p, s, n);
                lemma_searched_all(g, s, ids@, edges@, found@, p);
                let b = choose|b: usize| #[trigger] ids@.contains(b) && g.nodes[b as int] == n;
                assert(in_reach(g, s, b));
            }
            assert forall|id: usize| id < g.nodes.len() implies (#[trigger] found@[id as int]
                <==> in_reach(g, s, id)) by {
                assert(ids@.contains(id) <==> found@[id as int]);
            }
        }
        (ids, edges, found)
    }

    /// Finds the closest common dominator of the final nodes, with the start node singled out
    /// by a virtual entry node that leads to it alone.
    ///
    /// Returns `None` if there is no common dominator. This happens if and only if the start node
    /// does not dominate all final nodes, that is, if edges do not lead from it to all of them. No
    /// final nodes, or final nodes that are not in the graph, have no common dominator either.
    pub fn find_closest_common_dominator(&self, final_nodes: Vec<N>) -> (result: Option<N>)
        requires
            keys::key_model::<N>(),
            self.wf(),
        ensures
            self.is_answer(final_nodes@, result),
            result is Some ==> {
                let start = set![self.start_node];
                let edges = self.graph@.edges();
                &&& ways::guards_all(start, edges, result->0, final_nodes@)
                &&& forall|y: N| #[trigger]
                    ways::guards_all(start, edges, y, final_nodes@) ==> ways::guards(
                        start,
                        edges,
                        y,
                        result->0,
                    )
            },
    {
        let adj = self.graph.adj();
        let ghost g = self.graph@;
        let m = adj.len();
        let start = match adj.get_index_of(&self.start_node) {
            Some(start) => start,
            None => {
                return None;
            },
        };
        let (mut ids, mut edges, found) = self.search_from_start(start);

        let mut targets: Vec<usize> = Vec::new();
        let mut i: usize = 0;
        while i < final_nodes.len()
            invariant
                keys::key_model::<N>(),
                m == g.nodes.len(),
                g == self.graph@,
                adj.wf(),
                graph::adjacency(*adj) == g,
                found@.len() == m,
                g.nodes.no_duplicates(),
                forall|id: usize|
                    id < m ==> (#[trigger] found@[id as int] <==> in_reach(
                        g,
                        self.start_node,
                        id,
                    )),
                0 <= i <= final_nodes@.len(),
                targets@.len() == i,
                forall|k: int|
                    0 <= k < i ==> in_reach(g, self.start_node, #[trigger] targets@[k])
                        && g.nodes[targets@[k] as int] == final_nodes@[k],
            decreases final_nodes@.len() - i,
        {
            match adj.get_index_of(&final_nodes[i]) {
                Some(target) => {
                    if !found[target] {
                        assert(!g.leads(self.start_node, final_nodes@[i as int]));
                        return None;
                    }
                    targets.push(target);
                },
                None => {
                    return None;
                },
            }
            i += 1;
        }
        proof {
            assert forall|k: int| 0 <= k < final_nodes@.len() implies g.nodes.contains(
                #[trigger] final_nodes@[k],
            ) && g.leads(self.start_node, final_nodes@[k]) by {
                assert(in_reach(g, self.start_node, targets@[k]));
                assert(g.nodes[targets@[k] as int] == final_nodes@[k]);
            }
        }
        if targets.len() == 0 {
            return None;
        }

        // One more node, which leads to the start node.
        let ghost ids0 = ids@;
        let ghost edges0 = edges@;
        ids.push(m);
        edges.push((m, start));
        proof {
            assert forall|id: usize| #[trigger] ids@.contains(id) <==> in_reach(
                g,
                self.start_node,
                id,
            ) || id == m by {
                sequences::lemma_contains_push(ids0, m, id);
            }
            assert forall|a: usize, b: usize| #[trigger] edges@.contains((a, b)) <==> {
                ||| in_reach(g, self.start_node, a) && b < m && g.has_edge(
                    g.nodes[a as int],
                    g.nodes[b as int],
                )
                ||| a == m && b < m && g.nodes[b as int] == self.start_node
            } by {
                sequences::lemma_contains_push(edges0, (m, start), (a, b));
            }
            assert(numbered(g, self.start_node, ids@, edges@));
            lemma_numbered(g, self.start_node, ids@, edges@);
            keys::lemma_integers_are_keys();
            assert forall|k: int| 0 <= k < targets@.len() implies ids@.contains(
                #[trigger] targets@[k],
            ) by {
                assert(in_reach(g, self.start_node, targets@[k]));
            }
        }
        let ghost named = targets@;
        match finder::find_closest_common_dominator(ids, edges, targets) {
            Ok(dominator) => {
                proof {
                    lemma_result(
                        g,
                        self.start_node,
                        ids@,
                        edges@,
                        final_nodes@,
                        named,
                        dominator,
                    );
                }
                match dominator {
                    Some(id) => {
                        match adj.get_index(id) {
                            Some((node, _)) => {
                                let result = Some(keys::copy_key(node));
                                proof {
                                    flow_laws::law_answer_is_on_every_way(
                                        *self,
                                        final_nodes@,
                                        result,
                                    );
                                }
                                result
                            },
                            None => None,
                        }
                    },
                    None => None,
                }
            },
            // The numbered graph is well-formed by construction.
            Err(_) => None,
        }
    }
}

/// The closest common dominator of the numbered final nodes stands for that of the final nodes.
proof fn lemma_result<N>(
    g: GraphView<N>,
    start: N,
    ids: Seq<usize>,
    edges: Seq<(usize, usize)>,
    finals: Seq<N>,
    targets: Seq<usize>,
    dominator: Option<usize>,
)
    requires
        g.canonical(),
        numbered(g, start, ids, edges),
        finals.len() > 0,
        targets.len() == finals.len(),
        forall|k: int|
            0 <= k < targets.len() ==> in_reach(g, start, #[trigger] targets[k])
                && g.nodes[targets[k] as int] == finals[k],
        augmented::augmented(ids, edges).is_closest_common_dominator(
            augmented::targets_of(targets),
            dominator,
        ),
    ensures
        entered(g, start).is_closest_common_dominator(
            augmented::targets_of(finals),
            unnumbered(g, dominator),
        ),
        unnumbered(g, dominator) is Some,
{
    lemma_numbered(g, start, ids, edges);
    let f = |id: Option<usize>| unnumbered(g, id);
    let named = augmented::targets_of(finals);
    let numbers_of = augmented::targets_of(targets);
    assert forall|t: Option<usize>| #[trigger] numbers_of.contains(t) implies numbers(
        g,
        start,
    ).contains(t) && named.contains(f(t)) by {
        let k = targets.index_of(t->0);
        assert(in_reach(g, start, targets[k]));
        assert(finals.contains(finals[k]));
    }
    assert forall|y: Option<N>| #[trigger] named.contains(y) implies exists|t: Option<usize>|
        #[trigger] numbers_of.contains(t) && f(t) == y by {
        let k = finals.index_of(y->0);
        assert(targets.contains(targets[k]));
        assert(numbers_of.contains(Some(targets[k])) && f(Some(targets[k])) == y);
    }
    assert(numbers_of.contains(Some(targets[0])));
    merge::lemma_merge_closest(
        augmented::augmented(ids, edges),
        entered(g, start),
        Some(g.nodes.len() as usize),
        f,
        numbers(g, start),
        numbers_of,
        named,
        Some(targets[0]),
        dominator,
    );
    assert forall|t: Option<N>| #[trigger] named.contains(t) implies entered(g, start).dominates(
        Some(start),
        t,
    ) by {
        let k = finals.index_of(t->0);
        assert(in_reach(g, start, targets[k]));
        flow_laws::law_start_dominates_what_it_leads_to(g, start, t->0);
    }
    assert(named.contains(Some(finals[0])));
    entered(g, start).law_common_dominators_dominate_closest(
        named,
        Some(finals[0]),
        unnumbered(g, dominator),
        Some(start),
    );
    if unnumbered(g, dominator) is None {
        entered(g, start).lemma_dominators_of_root(Some(start));
    }
}

impl<N: Hash + Eq + Clone> Clone for FlowGraph<N> {
    fn clone(&self) -> (result: Self)
        ensures
            keys::key_model::<N>() ==> result.graph@ == self.graph@ && result.start_node
                == self.start_node,
    {
        let start_node = self.start_node.clone();
        assert(cloned(self.start_node, start_node));
        FlowGraph { graph: self.graph.clone(), start_node }
    }
}

impl<N: Hash + Eq + Clone> PartialEq for FlowGraph<N> {
    fn eq(&self, other: &Self) -> (same: bool) {
        reveal(vstd::laws_eq::obeys_concrete_eq);
        self.graph == other.graph && self.start_node == other.start_node
    }
}

impl<N: Hash + Eq + Clone> Eq for FlowGraph<N> {

}

/// Two flow graphs are equal if their graphs are equal and they start at the same node.
impl<N: Hash + Eq + Clone> vstd::std_specs::cmp::PartialEqSpecImpl for FlowGraph<N> {
    open spec fn obeys_eq_spec() -> bool {
        keys::key_model::<N>()
    }

    open spec fn eq_spec(&self, other: &Self) -> bool {
        self.graph@.same_children(other.graph@) && self.start_node == other.start_node
    }
}

} // verus!
