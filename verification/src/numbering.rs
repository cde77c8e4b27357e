//! The nodes of a graph as consecutive numbers, with lists of the edges between them.

use crate::augmented;
use crate::sequences;
use vstd::prelude::*;

verus! {

/// Numbered nodes, and the edges between them as lists of numbers. One more number, after those of
/// the nodes, stands for a virtual entry.
#[verifier::reject_recursive_types(T)]
pub struct Numbering<T> {
    /// The node with each number.
    pub names: Seq<T>,
    /// The number of each node.
    pub ids: Map<T, usize>,
    /// The successors of each number.
    pub successors: Seq<Seq<usize>>,
    /// The predecessors of each number.
    pub predecessors: Seq<Seq<usize>>,
}

impl<T> Numbering<T> {
    /// Every node has the number at which it stands, and nothing else has a number.
    pub open spec fn numbers_nodes(self) -> bool {
        &&& forall|t: T| #[trigger] self.ids.contains_key(t) <==> self.names.contains(t)
        &&& forall|i: int|
            0 <= i < self.names.len() ==> self.ids[#[trigger] self.names[i]] == i
    }

    /// Both kinds of list describe the same edges, each of them once. No edge leads to the virtual
    /// entry.
    pub open spec fn lists_mirrored(self) -> bool {
        let n = self.names.len();
        &&& self.successors.len() == n + 1
        &&& self.predecessors.len() == n + 1
        &&& forall|u: int| 0 <= u <= n ==> (#[trigger] self.successors[u]).no_duplicates()
        &&& forall|v: int| 0 <= v <= n ==> (#[trigger] self.predecessors[v]).no_duplicates()
        &&& forall|u: int, v: usize|
            0 <= u <= n && #[trigger] self.successors[u].contains(v) ==> v < n
        &&& forall|v: int, u: usize|
            0 <= v <= n && #[trigger] self.predecessors[v].contains(u) ==> u <= n
        &&& forall|u: usize, v: usize|
            #![trigger self.successors[u as int].contains(v)]
            #![trigger self.predecessors[v as int].contains(u)]
            u <= n && v <= n ==> (self.successors[u as int].contains(v)
                <==> self.predecessors[v as int].contains(u))
    }

    /// The numbering of the graph with the given nodes and edges: the nodes are numbered in the
    /// order in which they first occur, edges from a node to itself are left out, and the virtual
    /// entry leads to the nodes to which no edge leads from another node.
    pub open spec fn is_of(self, nodes: Seq<T>, edges: Seq<(T, T)>) -> bool {
        let n = self.names.len();
        &&& self.names == sequences::distinct(nodes)
        &&& self.numbers_nodes()
        &&& self.lists_mirrored()
        &&& forall|u: usize, v: usize|
            u < n && v < n ==> (#[trigger] self.successors[u as int].contains(v) <==> u != v
                && edges.contains((self.names[u as int], self.names[v as int])))
        &&& forall|v: usize| #[trigger]
            self.successors[n as int].contains(v) <==> v < n && augmented::is_entry(
                nodes,
                edges,
                self.names[v as int],
            )
    }
}

} // verus!
