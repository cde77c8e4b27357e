//! Closest common dominators in directed graphs.
//!
//! A node `z` *dominates* a node `n` if every walk from the entry of the graph to `n` goes through
//! `z`. The *closest common dominator* of some nodes is the node that dominates all of them and
//! that every other such node dominates: loosely speaking, the choke point in front of them.
//! [`dominance`] and [`tree`] define these notions, with the immediate dominators and the dominator
//! tree, and prove what holds of them.
//!
//! - [`DominatorFinder`] and [`find_closest_common_dominator`] search a graph that is given by its
//!   nodes and edges. A virtual entry node leads to all its entry nodes. [`finder_laws`] says what
//!   they find in terms of the [`ways`] along the edges.
//! - [`SimpleDirectedGraph`] is a directed graph that keeps the order in which its nodes and edges
//!   were given. [`graph_laws`] says what its operations do to nodes and edges, and to their
//!   [`order`].
//! - [`FlowGraph`] is such a graph with a start node. It can be trimmed to what leads to given
//!   nodes ([`trim`], [`trim_laws`]) and searched for closest common dominators ([`flow_laws`]).
//! - [`ValueFlowGraph`] is the flow graph of the values of the nodes of another ([`value_laws`]).
//!
//! Nodes and values can be of any type that satisfies [`keys::key_model`].

pub mod augmented;
pub mod dominance;
pub mod errors;
pub mod finder;
pub mod finder_laws;
pub mod flow;
pub mod flow_laws;
pub mod forest;
pub mod graph;
pub mod graph_laws;
pub mod iteration;
pub mod keys;
pub mod merge;
pub mod numbering;
pub mod order;
pub mod ordered;
pub mod ordered_laws;
pub mod relabel;
pub mod search;
pub mod sequences;
pub mod tree;
pub mod trim;
pub mod trim_laws;
pub mod value;
pub mod value_laws;
pub mod ways;

pub use crate::errors::DominatorFinderError;
pub use crate::errors::FlowGraphError;
pub use crate::finder::find_closest_common_dominator;
pub use crate::finder::DominatorFinder;
pub use crate::flow::FlowGraph;
pub use crate::graph::SimpleDirectedGraph;
pub use crate::ordered::OrderedMap;
pub use crate::ordered::OrderedSet;
pub use crate::value::ValueFlowGraph;
