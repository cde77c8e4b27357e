//! Simple directed graphs.

use crate::graph_laws;
use crate::keys;
use crate::order;
use crate::ordered::OrderedMap;
use crate::ordered::OrderedSet;
use crate::sequences;
use std::hash::Hash;
use vstd::prelude::*;
use vstd::std_specs::cmp::PartialEqSpec;

verus! {

/// A directed graph as a mathematical object: its nodes in order, and the children of each node
/// in order.
#[verifier::ext_equal]
#[verifier::reject_recursive_types(N)]
pub struct GraphView<N> {
    /// The nodes.
    pub nodes: Seq<N>,
    /// The nodes to which each node has an edge.
    pub children: Map<N, Seq<N>>,
}

impl<N> GraphView<N> {
    /// There is an edge from `a` to `b`.
    pub open spec fn has_edge(self, a: N, b: N) -> bool {
        self.children.contains_key(a) && self.children[a].contains(b)
    }

    /// Canonical form: nothing is listed twice, exactly the nodes have a list of children, and
    /// every child is a node.
    pub open spec fn canonical(self) -> bool {
        &&& self.nodes.no_duplicates()
        &&& forall|n: N| #[trigger] self.children.contains_key(n) <==> self.nodes.contains(n)
        &&& forall|n: N| #[trigger]
            self.children.contains_key(n) ==> self.children[n].no_duplicates()
        &&& forall|a: N, b: N| #[trigger] self.has_edge(a, b) ==> self.nodes.contains(b)
    }

    /// The `i`-th step of the sequence `p` follows an edge.
    pub open spec fn follows_edge(self, p: Seq<N>, i: int) -> bool {
        self.has_edge(p[i], p[i + 1])
    }

    /// Every step of `p` follows an edge.
    pub open spec fn is_path(self, p: Seq<N>) -> bool {
        forall|i: int| 0 <= i < p.len() - 1 ==> #[trigger] self.follows_edge(p, i)
    }

    /// `p` follows edges from `a` to `b`.
    pub open spec fn is_path_between(self, p: Seq<N>, a: N, b: N) -> bool {
        &&& p.len() > 0
        &&& p[0] == a
        &&& p.last() == b
        &&& self.is_path(p)
    }

    /// Edges lead from `a` to `b`.
    pub open spec fn leads(self, a: N, b: N) -> bool {
        exists|p: Seq<N>| self.is_path_between(p, a, b)
    }

    /// The edges out of one node.
    pub open spec fn edges_from(self, parent: N) -> Seq<(N, N)> {
        self.children[parent].map_values(|child: N| (parent, child))
    }

    /// All edges: those out of the first node, then those out of the next, and so on.
    pub open spec fn edges(self) -> Seq<(N, N)> {
        self.nodes.flat_map(|parent: N| self.edges_from(parent))
    }

    /// The nodes that have an edge to `child`, in the order of the nodes.
    pub open spec fn parents(self, child: N) -> Seq<N> {
        self.nodes.filter(|n: N| self.has_edge(n, child))
    }

    /// The same nodes with all edges reversed. A node comes before its children, unless it was
    /// listed earlier as a child itself.
    pub open spec fn reversed(self) -> GraphView<N> {
        GraphView {
            nodes: sequences::distinct(
                self.nodes.flat_map(|parent: N| seq![parent] + self.children[parent]),
            ),
            children: Map::new(|n: N| self.nodes.contains(n), |n: N| self.parents(n)),
        }
    }

    /// The same graph, where each child that was not a node becomes one, without children. The
    /// new nodes come last.
    pub open spec fn completed(self) -> GraphView<N> {
        let nodes = sequences::distinct(self.nodes + self.nodes.flat_map(|n: N| self.children[n]));
        GraphView {
            nodes,
            children: Map::new(
                |n: N| nodes.contains(n),
                |n: N|
                    if self.children.contains_key(n) {
                        self.children[n]
                    } else {
                        Seq::empty()
                    },
            ),
        }
    }

    /// Both graphs list children for the same nodes, and the same children for each, in whatever
    /// order.
    pub open spec fn same_children(self, other: GraphView<N>) -> bool {
        &&& self.children.dom() =~= other.children.dom()
        &&& forall|n: N| #[trigger]
            self.children.contains_key(n) ==> self.children[n].to_set() =~= other.children[
                n
            ].to_set()
    }

    /// Both graphs have the same nodes and the same edges, in whatever order.
    pub open spec fn same_as(self, other: GraphView<N>) -> bool {
        &&& forall|n: N| #[trigger] self.nodes.contains(n) <==> other.nodes.contains(n)
        &&& forall|a: N, b: N| #[trigger] self.has_edge(a, b) <==> other.has_edge(a, b)
    }
}

/// The graph that a list of nodes and a list of edges describe, where both may repeat
/// themselves: what occurs first is listed first.
pub open spec fn gathered<N>(heads: Seq<N>, pairs: Seq<(N, N)>) -> GraphView<N> {
    GraphView {
        nodes: sequences::distinct(heads),
        children: Map::new(
            |n: N| heads.contains(n),
            |n: N| sequences::distinct(sequences::ends_of(pairs, n)),
        ),
    }
}

/// The graph that an adjacency map describes.
pub open spec fn adjacency<N>(adj: OrderedMap<N, OrderedSet<N>>) -> GraphView<N> {
    GraphView {
        nodes: adj.keys(),
        children: Map::new(|n: N| adj@.contains_key(n), |n: N| adj@[n]@),
    }
}

/// An adjacency map holds what was gathered, and every pair starts at a gathered node.
pub open spec fn gathers<N>(
    adj: OrderedMap<N, OrderedSet<N>>,
    heads: Seq<N>,
    pairs: Seq<(N, N)>,
) -> bool {
    &&& adjacency(adj) == gathered(heads, pairs)
    &&& forall|i: int| 0 <= i < pairs.len() ==> heads.contains((#[trigger] pairs[i]).0)
}

/// A map that holds what was gathered repeats nothing.
pub proof fn lemma_gathers<N>(adj: OrderedMap<N, OrderedSet<N>>, heads: Seq<N>, pairs: Seq<(N, N)>)
    requires
        gathers(adj, heads, pairs),
    ensures
        adj.wf(),
        adj.keys() == sequences::distinct(heads),
        forall|n: N| #[trigger]
            adj@.contains_key(n) ==> adj@[n]@ == sequences::distinct(sequences::ends_of(pairs, n))
                && adj@[n]@.no_duplicates(),
        forall|n: N| #[trigger] adj@.contains_key(n) <==> heads.contains(n),
{
    let g = adjacency(adj);
    sequences::lemma_distinct_no_duplicates(heads);
    assert(g.nodes == gathered(heads, pairs).nodes);
    assert forall|n: N| #[trigger] adj@.contains_key(n) <==> heads.contains(n) by {
        assert(g.children.contains_key(n) <==> gathered(heads, pairs).children.contains_key(n));
    }
    assert forall|n: N| #[trigger] adj@.contains_key(n) <==> adj.keys().contains(n) by {
        sequences::lemma_distinct_contains(heads, n);
    }
    assert forall|n: N| #[trigger] adj@.contains_key(n) implies adj@[n]@ == sequences::distinct(
        sequences::ends_of(pairs, n),
    ) && adj@[n]@.no_duplicates() by {
        assert(g.children[n] == gathered(heads, pairs).children[n]);
        sequences::lemma_distinct_no_duplicates(sequences::ends_of(pairs, n));
    }
}

/// Nothing is listed under a node that starts no pair.
proof fn lemma_no_ends<N>(heads: Seq<N>, pairs: Seq<(N, N)>, n: N)
    requires
        forall|i: int| 0 <= i < pairs.len() ==> heads.contains((#[trigger] pairs[i]).0),
        !heads.contains(n),
    ensures
        sequences::ends_of(pairs, n) == Seq::<N>::empty(),
{
    let ends = sequences::ends_of(pairs, n);
    if ends.len() > 0 {
        assert(ends.contains(ends[0]));
        sequences::lemma_ends_contains(pairs, n, ends[0]);
        let i = pairs.index_of((n, ends[0]));
        assert(heads.contains(pairs[i].0));
    }
}

/// Puts a node into an adjacency map, if it is not there yet.
pub(crate) fn enter<N: Hash + Eq + Clone>(
    adj: &mut OrderedMap<N, OrderedSet<N>>,
    node: N,
    Ghost(heads): Ghost<Seq<N>>,
    Ghost(pairs): Ghost<Seq<(N, N)>>,
)
    requires
        keys::key_model::<N>(),
        gathers(*old(adj), heads, pairs),
    ensures
        gathers(*final(adj), heads.push(node), pairs),
{
    proof {
        lemma_gathers(*adj, heads, pairs);
        sequences::lemma_distinct_push(heads, node);
        sequences::lemma_distinct_contains(heads, node);
        if !heads.contains(node) {
            lemma_no_ends(heads, pairs, node);
        }
        assert forall|n: N| #[trigger] heads.push(node).contains(n) <==> heads.contains(n) || n
            == node by {
            sequences::lemma_contains_push(heads, node, n);
        }
    }
    adj.entry_or_default(node);
    assert(adjacency(*adj) =~~= gathered(heads.push(node), pairs));
}

/// Puts an edge into an adjacency map, with its parent, if it is not there yet. The result says
/// whether it was new.
pub(crate) fn link<N: Hash + Eq + Clone>(
    adj: &mut OrderedMap<N, OrderedSet<N>>,
    parent: N,
    child: N,
    Ghost(heads): Ghost<Seq<N>>,
    Ghost(pairs): Ghost<Seq<(N, N)>>,
) -> (inserted: bool)
    requires
        keys::key_model::<N>(),
        gathers(*old(adj), heads, pairs),
    ensures
        gathers(*final(adj), heads.push(parent), pairs.push((parent, child))),
        inserted == !pairs.contains((parent, child)),
{
    proof {
        lemma_gathers(*adj, heads, pairs);
        sequences::lemma_distinct_push(heads, parent);
        sequences::lemma_distinct_contains(heads, parent);
        if !heads.contains(parent) {
            lemma_no_ends(heads, pairs, parent);
        }
        assert forall|n: N| #[trigger] heads.push(parent).contains(n) <==> heads.contains(n) || n
            == parent by {
            sequences::lemma_contains_push(heads, parent, n);
        }
        assert forall|n: N| true implies #[trigger] sequences::ends_of(
            pairs.push((parent, child)),
            n,
        ) == if parent == n {
            sequences::ends_of(pairs, n).push(child)
        } else {
            sequences::ends_of(pairs, n)
        } by {
            sequences::lemma_ends_push(pairs, parent, child, n);
        }
        sequences::lemma_distinct_push(sequences::ends_of(pairs, parent), child);
        sequences::lemma_distinct_contains(sequences::ends_of(pairs, parent), child);
        sequences::lemma_ends_contains(pairs, parent, child);
    }
    let inserted = adj.entry_or_default(parent).insert(child);
    assert(adjacency(*adj) =~~= gathered(heads.push(parent), pairs.push((parent, child))));
    inserted
}

/// The graph of a list of edges: first come the nodes that start an edge, then the others.
pub open spec fn of_edges<N>(edges: Seq<(N, N)>) -> GraphView<N> {
    gathered(
        edges.map_values(|e: (N, N)| e.0) + edges.flat_map(|e: (N, N)| seq![e.0, e.1]),
        edges,
    )
}

/// The nodes that have a list in an adjacency list.
pub open spec fn listed_heads<N>(lists: Seq<(N, Vec<N>)>) -> Seq<N> {
    lists.map_values(|l: (N, Vec<N>)| l.0)
}

/// All nodes that an adjacency list names.
pub open spec fn listed_nodes<N>(lists: Seq<(N, Vec<N>)>) -> Seq<N> {
    lists.flat_map(|l: (N, Vec<N>)| seq![l.0] + l.1@)
}

/// The edges of an adjacency list.
pub open spec fn listed_edges<N>(lists: Seq<(N, Vec<N>)>) -> Seq<(N, N)> {
    lists.flat_map(|l: (N, Vec<N>)| l.1@.map_values(|child: N| (l.0, child)))
}

/// The graph of an adjacency list: first come the nodes that have a list, then the others.
pub open spec fn of_lists<N>(lists: Seq<(N, Vec<N>)>) -> GraphView<N> {
    gathered(listed_heads(lists) + listed_nodes(lists), listed_edges(lists))
}

/// What is gathered is canonical if every pair ends at a gathered node.
pub proof fn lemma_gathered_canonical<N>(heads: Seq<N>, pairs: Seq<(N, N)>)
    requires
        forall|i: int| 0 <= i < pairs.len() ==> heads.contains((#[trigger] pairs[i]).1),
    ensures
        gathered(heads, pairs).canonical(),
{
    let g = gathered(heads, pairs);
    sequences::lemma_distinct_no_duplicates(heads);
    assert forall|n: N| #[trigger] g.children.contains_key(n) <==> g.nodes.contains(n) by {
        sequences::lemma_distinct_contains(heads, n);
    }
    assert forall|n: N| #[trigger] g.children.contains_key(n) implies g.children[
        n
    ].no_duplicates() by {
        sequences::lemma_distinct_no_duplicates(sequences::ends_of(pairs, n));
    }
    assert forall|a: N, b: N| #[trigger] g.has_edge(a, b) implies g.nodes.contains(b) by {
        sequences::lemma_distinct_contains(sequences::ends_of(pairs, a), b);
        sequences::lemma_ends_contains(pairs, a, b);
        let i = pairs.index_of((a, b));
        assert(heads.contains(pairs[i].1));
        sequences::lemma_distinct_contains(heads, b);
    }
}

/// What is gathered has exactly the given nodes and edges.
pub proof fn lemma_gathered_edges<N>(heads: Seq<N>, pairs: Seq<(N, N)>)
    ensures
        forall|n: N| #[trigger] gathered(heads, pairs).nodes.contains(n) <==> heads.contains(n),
        forall|a: N, b: N| #[trigger]
            gathered(heads, pairs).has_edge(a, b) <==> heads.contains(a) && pairs.contains((a, b)),
{
    let g = gathered(heads, pairs);
    assert forall|n: N| #[trigger] g.nodes.contains(n) <==> heads.contains(n) by {
        sequences::lemma_distinct_contains(heads, n);
    }
    assert forall|a: N, b: N| #[trigger]
        g.has_edge(a, b) <==> heads.contains(a) && pairs.contains((a, b)) by {
        sequences::lemma_distinct_contains(sequences::ends_of(pairs, a), b);
        sequences::lemma_ends_contains(pairs, a, b);
    }
}

/// A node that is gathered again makes no difference.
pub proof fn lemma_head_again<N>(
    adj: OrderedMap<N, OrderedSet<N>>,
    heads: Seq<N>,
    pairs: Seq<(N, N)>,
    node: N,
)
    requires
        gathers(adj, heads.push(node), pairs),
        heads.contains(node),
    ensures
        gathers(adj, heads, pairs),
{
    sequences::lemma_distinct_push(heads, node);
    assert forall|n: N| heads.push(node).contains(n) <==> heads.contains(n) by {
        sequences::lemma_contains_push(heads, node, n);
    }
    assert(gathered(heads.push(node), pairs) =~~= gathered(heads, pairs));
}

/// Puts the given nodes into an adjacency map, which holds some of them.
fn add_nodes<N: Hash + Eq + Clone>(
    adj: &mut OrderedMap<N, OrderedSet<N>>,
    nodes: OrderedSet<N>,
    Ghost(heads): Ghost<Seq<N>>,
    Ghost(pairs): Ghost<Seq<(N, N)>>,
    Ghost(listed): Ghost<Seq<N>>,
)
    requires
        keys::key_model::<N>(),
        gathers(*old(adj), heads, pairs),
        nodes@ == sequences::distinct(listed),
        forall|n: N| #[trigger] heads.contains(n) ==> listed.contains(n),
    ensures
        gathers(*final(adj), heads + listed, pairs),
{
    proof {
        lemma_gathers(*adj, heads, pairs);
        sequences::lemma_distinct_no_duplicates(listed);
        sequences::lemma_distinct_no_duplicates(heads);
        assert forall|n: N| #[trigger] nodes@.contains(n) <==> listed.contains(n) by {
            sequences::lemma_distinct_contains(listed, n);
        }
        assert forall|n: N| #[trigger] adj.keys().contains(n) implies nodes@.contains(n) by {
            sequences::lemma_distinct_contains(heads, n);
        }
        sequences::lemma_no_longer(adj.keys(), nodes@);
        sequences::lemma_distinct_absorbs(heads, listed);
    }
    let mut i: usize = 0;
    if nodes.len() > adj.len() {
        // Some nodes only appear as children.
        assert(heads + nodes@.take(0) =~= heads);
        while i < nodes.len()
            invariant
                keys::key_model::<N>(),
                0 <= i <= nodes@.len(),
                gathers(*adj, heads + nodes@.take(i as int), pairs),
            decreases nodes@.len() - i,
        {
            match nodes.get_index(i) {
                Some(node) => {
                    proof {
                        assert(heads + nodes@.take(i + 1) =~= (heads + nodes@.take(i as int)).push(
                            *node,
                        ));
                    }
                    enter(
                        adj,
                        keys::copy_key(node),
                        Ghost(heads + nodes@.take(i as int)),
                        Ghost(pairs),
                    );
                },
                None => {},
            }
            i += 1;
        }
        assert(nodes@.take(i as int) =~= nodes@);
    } else {
        proof {
            assert forall|n: N| nodes@.contains(n) implies heads.contains(n) by {
                assert(adj.keys().contains(n));
                sequences::lemma_distinct_contains(heads, n);
            }
            sequences::lemma_distinct_add_known(heads, nodes@);
            assert forall|n: N| (heads + nodes@).contains(n) <==> heads.contains(n) by {
                sequences::lemma_contains_add(heads, nodes@, n);
            }
            assert(gathered(heads + nodes@, pairs) =~~= gathered(heads, pairs));
            assert forall|k: int| 0 <= k < pairs.len() implies (heads + nodes@).contains(
                (#[trigger] pairs[k]).0,
            ) by {
                assert(heads.contains(pairs[k].0));
            }
        }
    }
    proof {
        assert forall|n: N| (heads + nodes@).contains(n) <==> (heads + listed).contains(n) by {
            sequences::lemma_contains_add(heads, nodes@, n);
            sequences::lemma_contains_add(heads, listed, n);
            assert(nodes@.contains(n) <==> listed.contains(n));
        }
        assert(gathered(heads + nodes@, pairs) =~~= gathered(heads + listed, pairs));
        assert forall|k: int| 0 <= k < pairs.len() implies (heads + listed).contains(
            (#[trigger] pairs[k]).0,
        ) by {
            assert((heads + nodes@).contains(pairs[k].0));
        }
    }
}

/// Both ends of every edge of an adjacency list are among the nodes it lists, and so is every
/// node that has a list.
pub proof fn lemma_lists_known<N>(lists: Seq<(N, Vec<N>)>)
    ensures
        forall|n: N| #[trigger]
            listed_heads(lists).contains(n) ==> listed_nodes(lists).contains(n),
        forall|a: N, b: N| #[trigger]
            listed_edges(lists).contains((a, b)) ==> listed_nodes(lists).contains(b),
{
    let first = |l: (N, Vec<N>)| l.0;
    let both = |l: (N, Vec<N>)| seq![l.0] + l.1@;
    let part = |l: (N, Vec<N>)| l.1@.map_values(|child: N| (l.0, child));
    assert forall|n: N| #[trigger] listed_heads(lists).contains(n) implies listed_nodes(
        lists,
    ).contains(n) by {
        let l = lists[lists.map_values(first).index_of(n)];
        assert(both(l)[0] == n);
        assert(lists.contains(l) && both(l).contains(n));
        sequences::lemma_flat_contains(lists, both, n);
    }
    assert forall|a: N, b: N| #[trigger]
        listed_edges(lists).contains((a, b)) implies listed_nodes(lists).contains(b) by {
        sequences::lemma_flat_contains(lists, part, (a, b));
        let l = choose|l: (N, Vec<N>)| lists.contains(l) && #[trigger] part(l).contains((a, b));
        let k = part(l).index_of((a, b));
        assert(both(l)[k + 1] == b);
        assert(lists.contains(l) && both(l).contains(b));
        sequences::lemma_flat_contains(lists, both, b);
    }
}

/// The edges out of `parent`, turned round.
pub open spec fn turned<N>(g: GraphView<N>, parent: N) -> Seq<(N, N)> {
    g.children[parent].map_values(|child: N| (child, parent))
}

/// What the edges out of `parent`, turned round, list under `n`.
proof fn lemma_turned<N>(children: Seq<N>, parent: N, n: N)
    requires
        children.no_duplicates(),
    ensures
        sequences::ends_of(children.map_values(|child: N| (child, parent)), n)
            == if children.contains(n) {
            seq![parent]
        } else {
            Seq::empty()
        },
    decreases children.len(),
{
    let f = |child: N| (child, parent);
    if children.len() == 0 {
        reveal(Seq::filter);
        assert(sequences::ends_of(children.map_values(f), n) =~= Seq::empty());
    } else {
        let c = children.drop_last();
        let l = children.last();
        lemma_turned(c, parent, n);
        assert(c.push(l) =~= children);
        assert(children.map_values(f) =~= c.map_values(f).push((l, parent)));
        sequences::lemma_ends_push(c.map_values(f), l, parent, n);
        sequences::lemma_contains_push(c, l, n);
        if l == n {
            assert(!c.contains(n));
            assert(Seq::empty().push(parent) =~= seq![parent]);
        }
    }
}

/// What the edges out of the first `i` nodes, turned round, list under `n`: the nodes among them
/// that have an edge to `n`.
proof fn lemma_turned_parents<N>(g: GraphView<N>, i: int, n: N)
    requires
        g.canonical(),
        0 <= i <= g.nodes.len(),
    ensures
        sequences::ends_of(g.nodes.take(i).flat_map(|p: N| turned(g, p)), n) == g.nodes.take(
            i,
        ).filter(|p: N| g.has_edge(p, n)),
    decreases i,
{
    let part = |p: N| turned(g, p);
    let pred = |p: N| g.has_edge(p, n);
    if i == 0 {
        reveal(Seq::filter);
        assert(g.nodes.take(0).flat_map(part) =~= Seq::<(N, N)>::empty());
        assert(sequences::ends_of(g.nodes.take(0).flat_map(part), n) =~= Seq::<N>::empty());
        assert(g.nodes.take(0).filter(pred) =~= Seq::<N>::empty());
    } else {
        let p = g.nodes[i - 1];
        lemma_turned_parents(g, i - 1, n);
        g.nodes.lemma_flat_map_take_append(part, i - 1);
        sequences::lemma_ends_add(g.nodes.take(i - 1).flat_map(part), part(p), n);
        assert(g.children.contains_key(p));
        lemma_turned(g.children[p], p, n);
        assert(g.nodes.take(i) =~= g.nodes.take(i - 1).push(p));
        g.nodes.take(i - 1).lemma_filter_push(p, pred);
        assert(g.nodes.take(i - 1).filter(pred) + seq![p] =~= g.nodes.take(i - 1).filter(
            pred,
        ).push(p));
        assert(g.nodes.take(i - 1).filter(pred) + Seq::<N>::empty() =~= g.nodes.take(
            i - 1,
        ).filter(pred));
    }
}

/// Gathering all edges turned round reverses the graph.
pub proof fn lemma_reversed<N>(g: GraphView<N>)
    requires
        g.canonical(),
    ensures
        gathered(
            g.nodes.flat_map(|p: N| seq![p] + g.children[p]),
            g.nodes.flat_map(|p: N| turned(g, p)),
        ) == g.reversed(),
        g.reversed().canonical(),
        forall|n: N| #[trigger] g.reversed().nodes.contains(n) <==> g.nodes.contains(n),
        forall|a: N, b: N| #[trigger] g.reversed().has_edge(a, b) <==> g.has_edge(b, a),
{
    let part = |p: N| turned(g, p);
    let heads_of = |p: N| seq![p] + g.children[p];
    let heads = g.nodes.flat_map(heads_of);
    let pairs = g.nodes.flat_map(part);
    let h = g.reversed();
    assert forall|n: N| heads.contains(n) <==> g.nodes.contains(n) by {
        sequences::lemma_flat_contains(g.nodes, heads_of, n);
        if g.nodes.contains(n) {
            assert(heads_of(n)[0] == n);
            assert(heads_of(n).contains(n));
        }
        if heads.contains(n) {
            let p = choose|p: N| g.nodes.contains(p) && #[trigger] heads_of(p).contains(n);
            sequences::lemma_contains_add(seq![p], g.children[p], n);
            if g.children[p].contains(n) {
                assert(g.children.contains_key(p));
                assert(g.has_edge(p, n));
            }
        }
    }
    assert(g.nodes.take(g.nodes.len() as int) =~= g.nodes);
    assert forall|n: N| sequences::distinct(#[trigger] sequences::ends_of(pairs, n)) == g.parents(
        n,
    ) by {
        lemma_turned_parents(g, g.nodes.len() as int, n);
        sequences::lemma_filter_no_duplicates(g.nodes, |p: N| g.has_edge(p, n));
        sequences::lemma_distinct_of_distinct(g.parents(n));
    }
    assert(gathered(heads, pairs) =~~= h);
    assert forall|n: N| #[trigger] h.nodes.contains(n) <==> g.nodes.contains(n) by {
        sequences::lemma_distinct_contains(heads, n);
    }
    assert forall|a: N, b: N| #[trigger] h.has_edge(a, b) <==> g.has_edge(b, a) by {
        lemma_parents(g, a, b);
        if g.has_edge(b, a) {
            assert(g.children.contains_key(b));
            assert(g.nodes.contains(a));
        }
    }
    sequences::lemma_distinct_no_duplicates(heads);
    assert forall|n: N| #[trigger] h.children.contains_key(n) implies h.children[
        n
    ].no_duplicates() by {
        sequences::lemma_filter_no_duplicates(g.nodes, |p: N| g.has_edge(p, n));
    }
    assert forall|a: N, b: N| #[trigger] h.has_edge(a, b) implies h.nodes.contains(b) by {
        assert(g.has_edge(b, a));
        assert(g.children.contains_key(b));
    }
}

/// The parents of a node are the nodes that have an edge to it.
pub proof fn lemma_parents<N>(g: GraphView<N>, child: N, n: N)
    requires
        g.canonical(),
    ensures
        g.parents(child).contains(n) <==> g.has_edge(n, child),
{
    sequences::lemma_filter_contains(g.nodes, |p: N| g.has_edge(p, child), n);
    if g.has_edge(n, child) {
        assert(g.children.contains_key(n));
    }
}

/// Completing a graph in which nothing is listed twice makes it canonical.
pub proof fn lemma_completed_canonical<N>(g: GraphView<N>)
    requires
        g.nodes.no_duplicates(),
        forall|n: N| #[trigger] g.children.contains_key(n) <==> g.nodes.contains(n),
        forall|n: N| #[trigger] g.children.contains_key(n) ==> g.children[n].no_duplicates(),
    ensures
        g.completed().canonical(),
        forall|a: N, b: N| #[trigger] g.completed().has_edge(a, b) <==> g.has_edge(a, b),
        forall|n: N| #[trigger]
            g.completed().nodes.contains(n) <==> g.nodes.contains(n) || exists|p: N|
                #[trigger] g.has_edge(p, n),
{
    let lists = |n: N| g.children[n];
    let listed = g.nodes.flat_map(lists);
    let all = g.nodes + listed;
    let h = g.completed();
    sequences::lemma_distinct_no_duplicates(all);
    assert forall|n: N| #[trigger] h.nodes.contains(n) <==> g.nodes.contains(n) || exists|p: N|
        #[trigger] g.has_edge(p, n) by {
        sequences::lemma_distinct_contains(all, n);
        sequences::lemma_contains_add(g.nodes, listed, n);
        sequences::lemma_flat_contains(g.nodes, lists, n);
        if listed.contains(n) {
            let p = choose|p: N| g.nodes.contains(p) && #[trigger] lists(p).contains(n);
            assert(g.children.contains_key(p));
            assert(g.has_edge(p, n));
        }
        if exists|p: N| #[trigger] g.has_edge(p, n) {
            let p = choose|p: N| #[trigger] g.has_edge(p, n);
            assert(lists(p).contains(n));
        }
    }
    assert forall|n: N| #[trigger] h.children.contains_key(n) implies h.children[
        n
    ].no_duplicates() by {
        if g.children.contains_key(n) {
            assert(g.children[n].no_duplicates());
        }
    }
    assert forall|a: N, b: N| #[trigger] h.has_edge(a, b) <==> g.has_edge(a, b) by {
        if g.has_edge(a, b) {
            assert(h.nodes.contains(a));
            assert(h.children.contains_key(a));
        }
    }
    assert forall|a: N, b: N| #[trigger] h.has_edge(a, b) implies h.nodes.contains(b) by {
        assert(g.has_edge(a, b));
    }
}

/// Completing a canonical graph changes nothing.
pub proof fn law_canonical_graph_is_complete<N>(g: GraphView<N>)
    requires
        g.canonical(),
    ensures
        g.completed() == g,
{
    let lists = |n: N| g.children[n];
    let listed = g.nodes.flat_map(lists);
    assert forall|n: N| listed.contains(n) implies g.nodes.contains(n) by {
        sequences::lemma_flat_contains(g.nodes, lists, n);
        let p = choose|p: N| g.nodes.contains(p) && #[trigger] lists(p).contains(n);
        assert(g.children.contains_key(p));
        assert(g.has_edge(p, n));
    }
    sequences::lemma_distinct_add_known(g.nodes, listed);
    sequences::lemma_distinct_of_distinct(g.nodes);
    assert(g.completed() =~~= g);
}

/// An immutable directed graph with a minimal interface for going over its nodes and their
/// adjacent nodes. It cannot hold an edge twice.
#[verifier::reject_recursive_types(N)]
pub struct SimpleDirectedGraph<N> {
    /// The children of each node, in canonical form: every child is a key, even if it has no
    /// children.
    adj: OrderedMap<N, OrderedSet<N>>,
}

impl<N> View for SimpleDirectedGraph<N> {
    type V = GraphView<N>;

    closed spec fn view(&self) -> GraphView<N> {
        adjacency(self.adj)
    }
}

impl<N> SimpleDirectedGraph<N> {
    /// The graph is in canonical form.
    pub open spec fn wf(&self) -> bool {
        self@.canonical()
    }
}

impl<N: Hash + Eq + Clone> SimpleDirectedGraph<N> {
    /// Makes a graph of an adjacency map. Children that are no keys become nodes, after the
    /// others.
    pub fn new(adj: OrderedMap<N, OrderedSet<N>>) -> (result: Self)
        requires
            keys::key_model::<N>(),
            adj.wf(),
            forall|n: N| #[trigger] adj@.contains_key(n) ==> adj@[n].wf(),
        ensures
            result@ == adjacency(adj).completed(),
            result.wf(),
            adj.keys().is_prefix_of(result@.nodes),
            forall|n: N| #[trigger]
                adj@.contains_key(n) ==> result@.children.contains_key(n) && result@.children[n]
                    == adj@[n]@,
            forall|n: N| #[trigger]
                result@.children.contains_key(n) && !adj@.contains_key(n)
                    ==> result@.children[n].len() == 0,
    {
        proof {
            graph_laws::law_graph_of_map(adj);
        }
        let mut adj = adj;
        let ghost g = adjacency(adj);
        let ghost lists = |n: N| g.children[n];
        let mut missing_nodes: OrderedSet<N> = OrderedSet::new();
        let mut i: usize = 0;
        proof {
            sequences::lemma_distinct_of_distinct(g.nodes);
            assert(g.nodes.take(0).flat_map(lists) =~= Seq::<N>::empty());
            assert(g.nodes + g.nodes.take(0).flat_map(lists) =~= g.nodes);
            assert(g.nodes + missing_nodes@ =~= g.nodes);
        }
        while i < adj.len()
            invariant
                keys::key_model::<N>(),
                adj.wf(),
                g == adjacency(adj),
                lists == (|n: N| g.children[n]),
                0 <= i <= g.nodes.len(),
                g.nodes + missing_nodes@ == sequences::distinct(
                    g.nodes + g.nodes.take(i as int).flat_map(lists),
                ),
            decreases g.nodes.len() - i,
        {
            let ghost before = g.nodes + g.nodes.take(i as int).flat_map(lists);
            match adj.get_index(i) {
                Some((parent, children)) => {
                    let mut j: usize = 0;
                    proof {
                        assert(before + children@.take(0) =~= before);
                    }
                    while j < children.len()
                        invariant
                            keys::key_model::<N>(),
                            adj.wf(),
                            g == adjacency(adj),
                            0 <= j <= children@.len(),
                            g.nodes + missing_nodes@ == sequences::distinct(
                                before + children@.take(j as int),
                            ),
                        decreases children@.len() - j,
                    {
                        match children.get_index(j) {
                            Some(child) => {
                                let ghost seen = before + children@.take(j as int);
                                proof {
                                    assert(before + children@.take(j + 1) =~= seen.push(*child));
                                    sequences::lemma_distinct_push(seen, *child);
                                    sequences::lemma_distinct_contains(seen, *child);
                                    sequences::lemma_distinct_no_duplicates(seen);
                                    sequences::lemma_contains_add(
                                        g.nodes,
                                        missing_nodes@,
                                        *child,
                                    );
                                    assert(missing_nodes@.no_duplicates()) by {
                                        assert forall|a: int, b: int|
                                            0 <= a < missing_nodes@.len() && 0 <= b
                                                < missing_nodes@.len() && a
                                                != b implies missing_nodes@[a]
                                            != missing_nodes@[b] by {
                                            let both = g.nodes + missing_nodes@;
                                            assert(both[g.nodes.len() + a] == missing_nodes@[a]);
                                            assert(both[g.nodes.len() + b] == missing_nodes@[b]);
                                        }
                                    }
                                    assert(g.nodes + missing_nodes@.push(*child) =~= (g.nodes
                                        + missing_nodes@).push(*child));
                                }
                                if !adj.contains_key(child) {
                                    missing_nodes.insert(keys::copy_key(child));
                                }
                            },
                            None => {},
                        }
                        j += 1;
                    }
                    proof {
                        assert(children@.take(j as int) =~= children@);
                        assert(lists(*parent) == children@);
                        g.nodes.lemma_flat_map_take_append(lists, i as int);
                        assert(g.nodes + g.nodes.take(i + 1).flat_map(lists) =~= before
                            + children@);
                    }
                },
                None => {},
            }
            i += 1;
        }
        let ghost h = g.completed();
        proof {
            assert(g.nodes.take(i as int) =~= g.nodes);
            assert(h.nodes == g.nodes + missing_nodes@);
            lemma_completed_canonical(g);
        }
        let mut k: usize = 0;
        proof {
            assert(h.nodes.take(g.nodes.len() as int) =~= g.nodes);
        }
        while k < missing_nodes.len()
            invariant
                keys::key_model::<N>(),
                adj.wf(),
                0 <= k <= missing_nodes@.len(),
                h == g.completed(),
                h.nodes == g.nodes + missing_nodes@,
                h.nodes.no_duplicates(),
                adj.keys() == h.nodes.take(g.nodes.len() + k),
                forall|n: N| #[trigger] g.children.contains_key(n) <==> g.nodes.contains(n),
                forall|n: N| #[trigger]
                    adj@.contains_key(n) ==> adj@[n]@ == if g.children.contains_key(n) {
                        g.children[n]
                    } else {
                        Seq::empty()
                    },
            decreases missing_nodes@.len() - k,
        {
            match missing_nodes.get_index(k) {
                Some(node) => {
                    proof {
                        assert(h.nodes[g.nodes.len() + k] == *node);
                        assert(h.nodes.take(g.nodes.len() + k + 1) =~= adj.keys().push(*node));
                        assert(!adj.keys().contains(*node));
                        assert(!g.nodes.contains(*node)) by {
                            if g.nodes.contains(*node) {
                                assert(h.nodes[g.nodes.index_of(*node)] == *node);
                            }
                        }
                        assert forall|n: N| #[trigger]
                            adj.keys().push(*node).contains(n) <==> adj.keys().contains(n) || n
                                == *node by {
                            sequences::lemma_contains_push(adj.keys(), *node, n);
                        }
                    }
                    adj.entry_or_default(keys::copy_key(node));
                },
                None => {},
            }
            k += 1;
        }
        proof {
            assert(h.nodes.take(g.nodes.len() + k) =~= h.nodes);
            assert(adjacency(adj) =~~= h);
        }
        SimpleDirectedGraph { adj }
    }
    /// Makes a graph of a list of edges, in the order of the list. Repeated edges are dropped.
    pub fn from_edge_list(edges: Vec<(N, N)>) -> (result: Self)
        requires
            keys::key_model::<N>(),
        ensures
            result@ == of_edges(edges@),
            result.wf(),
            forall|a: N, b: N| #[trigger] result@.has_edge(a, b) <==> edges@.contains((a, b)),
            forall|n: N| #[trigger]
                result@.nodes.contains(n) <==> exists|e: (N, N)| #[trigger]
                    edges@.contains(e) && (n == e.0 || n == e.1),
            forall|a: N, b: N| #[trigger]
                order::before(result@.nodes, a, b) <==> order::before(
                    edges@.map_values(|e: (N, N)| e.0) + edges@.map_values(|e: (N, N)| e.1),
                    a,
                    b,
                ),
            forall|n: N, a: N, b: N|
                edges@.contains((n, a)) && edges@.contains((n, b)) ==> (#[trigger] order::before(
                    result@.children[n],
                    a,
                    b,
                ) <==> order::before(edges@, (n, a), (n, b))),
    {
        let ghost first = |e: (N, N)| e.0;
        let ghost both = |e: (N, N)| seq![e.0, e.1];
        let mut nodes: OrderedSet<N> = OrderedSet::new();
        let mut adj: OrderedMap<N, OrderedSet<N>> = OrderedMap::new();
        let mut i: usize = 0;
        proof {
            assert(edges@.take(0).flat_map(both) =~= Seq::<N>::empty());
            assert(edges@.take(0).map_values(first) =~= Seq::<N>::empty());
            assert(adjacency(adj) =~~= gathered(
                edges@.take(0).map_values(first),
                edges@.take(0),
            ));
        }
        while i < edges.len()
            invariant
                keys::key_model::<N>(),
                first == (|e: (N, N)| e.0),
                both == (|e: (N, N)| seq![e.0, e.1]),
                0 <= i <= edges@.len(),
                gathers(adj, edges@.take(i as int).map_values(first), edges@.take(i as int)),
                nodes@ == sequences::distinct(edges@.take(i as int).flat_map(both)),
            decreases edges@.len() - i,
        {
            let ghost before = edges@.take(i as int);
            let ghost heads = before.map_values(first);
            let ghost listed = before.flat_map(both);
            let ghost e = edges@[i as int];
            proof {
                assert(edges@.take(i + 1) =~= before.push(e));
                assert(before.push(e).map_values(first) =~= heads.push(e.0));
                before.lemma_flat_map_push(both, e);
                assert(listed + both(e) =~= listed.push(e.0).push(e.1));
                lemma_gathers(adj, heads, before);
                sequences::lemma_distinct_no_duplicates(listed);
                sequences::lemma_distinct_contains(listed, e.0);
                sequences::lemma_distinct_push(listed, e.0);
                sequences::lemma_distinct_no_duplicates(listed.push(e.0));
                sequences::lemma_distinct_contains(listed.push(e.0), e.1);
                sequences::lemma_distinct_push(listed.push(e.0), e.1);
                sequences::lemma_contains_push(listed, e.0, e.1);
                if heads.contains(e.0) {
                    let k = heads.index_of(e.0);
                    assert(both(before[k])[0] == e.0);
                    assert(before.contains(before[k]) && both(before[k]).contains(e.0));
                    sequences::lemma_flat_contains(before, both, e.0);
                }
                if before.contains((e.0, e.1)) {
                    assert(both(e)[1] == e.1);
                    assert(before.contains(e) && both(e).contains(e.1));
                    sequences::lemma_flat_contains(before, both, e.1);
                }
            }
            let parent = keys::copy_key(&edges[i].0);
            let child = keys::copy_key(&edges[i].1);
            if !adj.contains_key(&parent) {
                nodes.insert(keys::copy_key(&parent));
            }
            if link(&mut adj, parent, keys::copy_key(&child), Ghost(heads), Ghost(before)) {
                nodes.insert(child);
            }
            i += 1;
        }
        let ghost heads = edges@.map_values(first);
        let ghost listed = edges@.flat_map(both);
        proof {
            assert(edges@.take(i as int) =~= edges@);
            assert forall|n: N| #[trigger] heads.contains(n) implies listed.contains(n) by {
                let k = heads.index_of(n);
                assert(both(edges@[k])[0] == n);
                assert(edges@.contains(edges@[k]) && both(edges@[k]).contains(n));
                sequences::lemma_flat_contains(edges@, both, n);
            }
            assert forall|k: int| 0 <= k < edges@.len() implies (heads + listed).contains(
                (#[trigger] edges@[k]).1,
            ) by {
                assert(both(edges@[k])[1] == edges@[k].1);
                assert(edges@.contains(edges@[k]) && both(edges@[k]).contains(edges@[k].1));
                sequences::lemma_flat_contains(edges@, both, edges@[k].1);
                sequences::lemma_contains_add(heads, listed, edges@[k].1);
            }
            lemma_gathered_canonical(heads + listed, edges@);
            graph_laws::law_edge_list(edges@);
            graph_laws::law_edge_list_order(edges@);
        }
        add_nodes(&mut adj, nodes, Ghost(heads), Ghost(edges@), Ghost(listed));
        SimpleDirectedGraph { adj }
    }

    /// Makes a graph of an adjacency list, in the order of the list. Repeated edges are dropped.
    pub fn from_adjacency_list(adj_list: Vec<(N, Vec<N>)>) -> (result: Self)
        requires
            keys::key_model::<N>(),
        ensures
            result@ == of_lists(adj_list@),
            result.wf(),
            forall|a: N, b: N| #[trigger]
                result@.has_edge(a, b) <==> exists|l: (N, Vec<N>)| #[trigger]
                    adj_list@.contains(l) && l.0 == a && l.1@.contains(b),
            forall|n: N| #[trigger]
                result@.nodes.contains(n) <==> exists|l: (N, Vec<N>)| #[trigger]
                    adj_list@.contains(l) && (l.0 == n || l.1@.contains(n)),
            forall|a: N, b: N| #[trigger]
                order::before(result@.nodes, a, b) <==> order::before(
                    adj_list@.map_values(|l: (N, Vec<N>)| l.0) + adj_list@.flat_map(
                        |l: (N, Vec<N>)| l.1@,
                    ),
                    a,
                    b,
                ),
            forall|n: N, a: N, b: N|
                result@.children.contains_key(n) ==> (#[trigger] order::before(
                    result@.children[n],
                    a,
                    b,
                ) <==> order::before(
                    adj_list@.flat_map(
                        |l: (N, Vec<N>)| l.1@.map_values(|child: N| (l.0, child)),
                    ),
                    (n, a),
                    (n, b),
                )),
    {
        let ghost lists = adj_list@;
        let ghost both = |l: (N, Vec<N>)| seq![l.0] + l.1@;
        let ghost part = |l: (N, Vec<N>)| l.1@.map_values(|child: N| (l.0, child));
        let mut nodes: OrderedSet<N> = OrderedSet::new();
        let mut adj: OrderedMap<N, OrderedSet<N>> = OrderedMap::new();
        let mut i: usize = 0;
        proof {
            assert(lists.take(0).flat_map(both) =~= Seq::<N>::empty());
            assert(lists.take(0).flat_map(part) =~= Seq::<(N, N)>::empty());
            assert(listed_heads(lists.take(0)) =~= Seq::<N>::empty());
            assert(adjacency(adj) =~~= gathered(
                listed_heads(lists.take(0)),
                listed_edges(lists.take(0)),
            ));
        }
        while i < adj_list.len()
            invariant
                keys::key_model::<N>(),
                lists == adj_list@,
                both == (|l: (N, Vec<N>)| seq![l.0] + l.1@),
                part == (|l: (N, Vec<N>)| l.1@.map_values(|child: N| (l.0, child))),
                0 <= i <= lists.len(),
                gathers(
                    adj,
                    listed_heads(lists.take(i as int)),
                    listed_edges(lists.take(i as int)),
                ),
                nodes@ == sequences::distinct(listed_nodes(lists.take(i as int))),
            decreases lists.len() - i,
        {
            let ghost before = lists.take(i as int);
            let ghost heads = listed_heads(before);
            let ghost pairs = listed_edges(before);
            let ghost listed = listed_nodes(before);
            let ghost l = lists[i as int];
            proof {
                assert(lists.take(i + 1) =~= before.push(l));
                assert(listed_heads(before.push(l)) =~= heads.push(l.0));
                before.lemma_flat_map_push(both, l);
                before.lemma_flat_map_push(part, l);
                lemma_gathers(adj, heads, pairs);
                sequences::lemma_distinct_no_duplicates(listed);
                sequences::lemma_distinct_contains(listed, l.0);
                sequences::lemma_distinct_push(listed, l.0);
                lemma_lists_known(before);
            }
            let parent = keys::copy_key(&adj_list[i].0);
            if !adj.contains_key(&parent) {
                nodes.insert(keys::copy_key(&parent));
            }
            enter(&mut adj, keys::copy_key(&parent), Ghost(heads), Ghost(pairs));
            let children = &adj_list[i].1;
            let ghost heads1 = heads.push(l.0);
            let ghost listed1 = listed.push(l.0);
            let ghost out = part(l);
            proof {
                assert(listed1 + children@.take(0) =~= listed1);
                assert(pairs + out.take(0) =~= pairs);
                sequences::lemma_contains_push(heads, l.0, l.0);
                assert forall|a: N, b: N| #[trigger] pairs.contains((a, b)) implies listed1.contains(
                    b,
                ) by {
                    sequences::lemma_contains_push(listed, l.0, b);
                }
            }
            let mut j: usize = 0;
            while j < children.len()
                invariant
                    keys::key_model::<N>(),
                    parent == l.0,
                    children@ == l.1@,
                    out == l.1@.map_values(|child: N| (l.0, child)),
                    heads1.contains(parent),
                    0 <= j <= children@.len(),
                    gathers(adj, heads1, pairs + out.take(j as int)),
                    nodes@ == sequences::distinct(listed1 + children@.take(j as int)),
                    forall|a: N, b: N| #[trigger]
                        pairs.contains((a, b)) ==> listed1.contains(b),
                decreases children@.len() - j,
            {
                let ghost child = children@[j as int];
                let ghost p = pairs + out.take(j as int);
                let ghost seen = listed1 + children@.take(j as int);
                proof {
                    assert(pairs + out.take(j + 1) =~= p.push((parent, child)));
                    assert(listed1 + children@.take(j + 1) =~= seen.push(child));
                    sequences::lemma_distinct_no_duplicates(seen);
                    sequences::lemma_distinct_contains(seen, child);
                    sequences::lemma_distinct_push(seen, child);
                    if p.contains((parent, child)) {
                        sequences::lemma_contains_add(pairs, out.take(j as int), (parent, child));
                        sequences::lemma_contains_add(listed1, children@.take(j as int), child);
                        if out.take(j as int).contains((parent, child)) {
                            let k = out.take(j as int).index_of((parent, child));
                            assert(children@.take(j as int)[k] == child);
                        }
                    }
                }
                let inserted = link(
                    &mut adj,
                    keys::copy_key(&parent),
                    keys::copy_key(&children[j]),
                    Ghost(heads1),
                    Ghost(p),
                );
                if inserted {
                    nodes.insert(keys::copy_key(&children[j]));
                }
                proof {
                    lemma_head_again(adj, heads1, p.push((parent, child)), parent);
                }
                j += 1;
            }
            proof {
                assert(children@.take(j as int) =~= children@);
                assert(out.take(j as int) =~= out);
                assert(listed1 + children@ =~= listed + both(l));
            }
            i += 1;
        }
        let ghost heads = listed_heads(lists);
        let ghost pairs = listed_edges(lists);
        let ghost listed = listed_nodes(lists);
        proof {
            assert(lists.take(i as int) =~= lists);
            lemma_lists_known(lists);
            assert forall|k: int| 0 <= k < pairs.len() implies (heads + listed).contains(
                (#[trigger] pairs[k]).1,
            ) by {
                assert(pairs.contains((pairs[k].0, pairs[k].1)));
                sequences::lemma_contains_add(heads, listed, pairs[k].1);
            }
            lemma_gathered_canonical(heads + listed, pairs);
            graph_laws::law_adjacency_list(lists);
            graph_laws::law_adjacency_list_order(lists);
        }
        add_nodes(&mut adj, nodes, Ghost(heads), Ghost(pairs), Ghost(listed));
        SimpleDirectedGraph { adj }
    }

    /// A graph with the same nodes and all edges reversed.
    pub fn reverse(&self) -> (result: Self)
        requires
            keys::key_model::<N>(),
            self.wf(),
        ensures
            result@ == self@.reversed(),
            result.wf(),
            forall|n: N| #[trigger] result@.nodes.contains(n) <==> self@.nodes.contains(n),
            forall|a: N, b: N| #[trigger] result@.has_edge(a, b) <==> self@.has_edge(b, a),
            forall|n: N, a: N, b: N|
                self@.has_edge(a, n) && self@.has_edge(b, n) ==> (#[trigger] order::before(
                    result@.children[n],
                    a,
                    b,
                ) <==> order::before(self@.nodes, a, b)),
    {
        let adj = self.adj();
        let ghost g = self@;
        let ghost part = |p: N| turned(g, p);
        let ghost heads_of = |p: N| seq![p] + g.children[p];
        let mut rev_adj: OrderedMap<N, OrderedSet<N>> = OrderedMap::new();
        let mut i: usize = 0;
        proof {
            assert(g.nodes.take(0).flat_map(part) =~= Seq::<(N, N)>::empty());
            assert(g.nodes.take(0).flat_map(heads_of) =~= Seq::<N>::empty());
            assert(adjacency(rev_adj) =~~= gathered(
                g.nodes.take(0).flat_map(heads_of),
                g.nodes.take(0).flat_map(part),
            ));
        }
        while i < adj.len()
            invariant
                keys::key_model::<N>(),
                adj.wf(),
                adjacency(*adj) == g,
                part == (|p: N| turned(g, p)),
                heads_of == (|p: N| seq![p] + g.children[p]),
                0 <= i <= g.nodes.len(),
                gathers(
                    rev_adj,
                    g.nodes.take(i as int).flat_map(heads_of),
                    g.nodes.take(i as int).flat_map(part),
                ),
            decreases g.nodes.len() - i,
        {
            let ghost heads = g.nodes.take(i as int).flat_map(heads_of);
            let ghost pairs = g.nodes.take(i as int).flat_map(part);
            match adj.get_index(i) {
                Some((parent, children)) => {
                    // The parent is a node even if it has no children.
                    enter(&mut rev_adj, keys::copy_key(parent), Ghost(heads), Ghost(pairs));
                    let ghost heads1 = heads.push(*parent);
                    let ghost out = part(*parent);
                    proof {
                        assert(heads1 + children@.take(0) =~= heads1);
                        assert(pairs + out.take(0) =~= pairs);
                    }
                    let mut j: usize = 0;
                    while j < children.len()
                        invariant
                            keys::key_model::<N>(),
                            out == children@.map_values(|child: N| (child, *parent)),
                            0 <= j <= children@.len(),
                            gathers(
                                rev_adj,
                                heads1 + children@.take(j as int),
                                pairs + out.take(j as int),
                            ),
                        decreases children@.len() - j,
                    {
                        match children.get_index(j) {
                            Some(child) => {
                                let ghost h = heads1 + children@.take(j as int);
                                let ghost p = pairs + out.take(j as int);
                                proof {
                                    assert(heads1 + children@.take(j + 1) =~= h.push(*child));
                                    assert(pairs + out.take(j + 1) =~= p.push((*child, *parent)));
                                }
                                link(
                                    &mut rev_adj,
                                    keys::copy_key(child),
                                    keys::copy_key(parent),
                                    Ghost(h),
                                    Ghost(p),
                                );
                            },
                            None => {},
                        }
                        j += 1;
                    }
                    proof {
                        assert(children@.take(j as int) =~= children@);
                        assert(out.take(j as int) =~= out);
                        assert(heads1 + children@ =~= heads + heads_of(*parent));
                        g.nodes.lemma_flat_map_take_append(part, i as int);
                        g.nodes.lemma_flat_map_take_append(heads_of, i as int);
                    }
                },
                None => {},
            }
            i += 1;
        }
        proof {
            assert(g.nodes.take(i as int) =~= g.nodes);
            lemma_reversed(g);
            graph_laws::law_reverse_reverses_edges(g);
            graph_laws::law_reverse_order(g);
        }
        SimpleDirectedGraph { adj: rev_adj }
    }

    /// The adjacency map of the graph.
    pub fn adj(&self) -> (adj: &OrderedMap<N, OrderedSet<N>>)
        requires
            self.wf(),
        ensures
            adjacency(*adj) == self@,
            adj.wf(),
            forall|n: N| #[trigger] adj@.contains_key(n) ==> adj@[n].wf(),
    {
        proof {
            assert forall|n: N| #[trigger]
                self.adj@.contains_key(n) <==> self.adj.keys().contains(n) by {
                assert(self@.children.contains_key(n) <==> self@.nodes.contains(n));
            }
            assert forall|n: N| #[trigger] self.adj@.contains_key(n) implies self.adj@[n].wf() by {
                assert(self@.children.contains_key(n));
            }
        }
        &self.adj
    }

    /// The nodes of the graph.
    pub fn nodes(&self) -> (nodes: Vec<&N>)
        requires
            self.wf(),
        ensures
            nodes@.len() == self@.nodes.len(),
            forall|i: int| 0 <= i < nodes@.len() ==> *(#[trigger] nodes@[i]) == self@.nodes[i],
    {
        let adj = self.adj();
        let mut nodes: Vec<&N> = Vec::new();
        let mut i: usize = 0;
        while i < adj.len()
            invariant
                adj.wf(),
                adjacency(*adj) == self@,
                0 <= i <= adj.keys().len(),
                nodes@.len() == i,
                forall|k: int| 0 <= k < i ==> *(#[trigger] nodes@[k]) == self@.nodes[k],
            decreases adj.keys().len() - i,
        {
            match adj.get_index(i) {
                Some((node, _)) => {
                    nodes.push(node);
                },
                None => {},
            }
            i += 1;
        }
        nodes
    }

    /// The edges of the graph.
    pub fn edges(&self) -> (edges: Vec<(&N, &N)>)
        requires
            self.wf(),
        ensures
            edges@.len() == self@.edges().len(),
            forall|i: int|
                0 <= i < edges@.len() ==> *(#[trigger] edges@[i]).0 == self@.edges()[i].0
                    && *edges@[i].1 == self@.edges()[i].1,
    {
        let adj = self.adj();
        let ghost g = self@;
        let ghost part = |parent: N| g.edges_from(parent);
        let mut edges: Vec<(&N, &N)> = Vec::new();
        let mut i: usize = 0;
        assert(g.nodes.take(0).flat_map(part) =~= Seq::<(N, N)>::empty());
        while i < adj.len()
            invariant
                adj.wf(),
                adjacency(*adj) == g,
                part == (|parent: N| g.edges_from(parent)),
                0 <= i <= g.nodes.len(),
                lists_edges(edges@, g.nodes.take(i as int).flat_map(part)),
            decreases g.nodes.len() - i,
        {
            let ghost before = g.nodes.take(i as int).flat_map(part);
            match adj.get_index(i) {
                Some((parent, children)) => {
                    let mut j: usize = 0;
                    let ghost out = part(*parent);
                    proof {
                        assert(before + out.take(0) =~= before);
                    }
                    while j < children.len()
                        invariant
                            0 <= j <= children@.len(),
                            out == children@.map_values(|child: N| (*parent, child)),
                            lists_edges(edges@, before + out.take(j as int)),
                        decreases children@.len() - j,
                    {
                        match children.get_index(j) {
                            Some(child) => {
                                proof {
                                    assert(before + out.take(j + 1) =~= (before + out.take(
                                        j as int,
                                    )).push((*parent, *child)));
                                }
                                edges.push((parent, child));
                            },
                            None => {},
                        }
                        j += 1;
                    }
                    proof {
                        assert(out.take(j as int) =~= out);
                        g.nodes.lemma_flat_map_take_append(part, i as int);
                    }
                },
                None => {},
            }
            i += 1;
        }
        assert(g.nodes.take(i as int) =~= g.nodes);
        edges
    }

    /// The adjacent nodes of the given node, or `None` if it is not in the graph.
    pub fn adjacent_nodes(&self, node: &N) -> (children: Option<Vec<&N>>)
        requires
            keys::key_model::<N>(),
            self.wf(),
        ensures
            match children {
                Some(list) => {
                    &&& self@.nodes.contains(*node)
                    &&& list@.len() == self@.children[*node].len()
                    &&& forall|i: int|
                        0 <= i < list@.len() ==> *(#[trigger] list@[i]) == self@.children[*node][i]
                },
                None => !self@.nodes.contains(*node),
            },
    {
        let adj = self.adj();
        assert(self@.children.contains_key(*node) <==> self@.nodes.contains(*node));
        match adj.get(node) {
            Some(children) => {
                let mut list: Vec<&N> = Vec::new();
                let mut i: usize = 0;
                while i < children.len()
                    invariant
                        0 <= i <= children@.len(),
                        list@.len() == i,
                        forall|k: int| 0 <= k < i ==> *(#[trigger] list@[k]) == children@[k],
                    decreases children@.len() - i,
                {
                    match children.get_index(i) {
                        Some(child) => {
                            list.push(child);
                        },
                        None => {},
                    }
                    i += 1;
                }
                assert(self@.children[*node] == children@);
                Some(list)
            },
            None => None,
        }
    }

    /// Whether the graph contains the given node.
    pub fn contains_node(&self, node: &N) -> (found: bool)
        requires
            keys::key_model::<N>(),
            self.wf(),
        ensures
            found == self@.nodes.contains(*node),
    {
        let adj = self.adj();
        assert(self@.children.contains_key(*node) <==> self@.nodes.contains(*node));
        adj.contains_key(node)
    }
}

/// The pairs of references point to the given pairs.
spec fn lists_edges<N>(refs: Seq<(&N, &N)>, edges: Seq<(N, N)>) -> bool {
    &&& refs.len() == edges.len()
    &&& forall|i: int|
        0 <= i < refs.len() ==> *(#[trigger] refs[i]).0 == edges[i].0 && *refs[i].1 == edges[i].1
}

impl<N: Hash + Eq + Clone> Clone for SimpleDirectedGraph<N> {
    fn clone(&self) -> (result: Self)
        ensures
            keys::key_model::<N>() ==> result@ == self@,
    {
        let result = SimpleDirectedGraph { adj: self.adj.clone() };
        proof {
            if keys::key_model::<N>() {
                assert forall|n: N| #[trigger] self.adj@.contains_key(n) implies result.adj@[n]@
                    == self.adj@[n]@ by {
                    assert(cloned(self.adj@[n], result.adj@[n]));
                }
                assert(result@ =~~= self@);
            }
        }
        result
    }
}

impl<N: Hash + Eq + Clone> PartialEq for SimpleDirectedGraph<N> {
    fn eq(&self, other: &Self) -> (same: bool) {
        let same = self.adj == other.adj;
        proof {
            if keys::key_model::<N>() {
                assert(same == self.adj.eq_spec(&other.adj));
                assert(self@.children.dom() =~= self.adj@.dom());
                assert(other@.children.dom() =~= other.adj@.dom());
                assert forall|n: N| #[trigger]
                    self.adj@.contains_key(n) && other.adj@.contains_key(n) implies (
                self.adj@[n].eq_spec(&other.adj@[n]) <==> self@.children[n].to_set()
                    =~= other@.children[n].to_set()) by {}
                if same {
                    assert forall|n: N| #[trigger] self@.children.contains_key(n) implies
                        self@.children[n].to_set() =~= other@.children[n].to_set() by {
                        assert(self.adj@.contains_key(n));
                    }
                }
                if self@.same_children(other@) {
                    assert forall|n: N| #[trigger] self.adj@.contains_key(n) implies self.adj@[
                        n
                    ].eq_spec(&other.adj@[n]) by {
                        assert(self@.children.contains_key(n));
                    }
                }
            }
        }
        same
    }
}

impl<N: Hash + Eq + Clone> Eq for SimpleDirectedGraph<N> {

}

/// Two graphs are equal if they list the same children for the same nodes, in whatever order.
impl<N: Hash + Eq + Clone> vstd::std_specs::cmp::PartialEqSpecImpl for SimpleDirectedGraph<N> {
    open spec fn obeys_eq_spec() -> bool {
        keys::key_model::<N>()
    }

    open spec fn eq_spec(&self, other: &Self) -> bool {
        self@.same_children(other@)
    }
}

} // verus!
