//! What can be wrong with the input.

use vstd::prelude::*;

verus! {

/// Errors that can occur during dominator finding.
#[derive(Clone, Copy, Debug, PartialEq, Eq, Structural)]
pub enum DominatorFinderError {
    /// Edge contains unknown node.
    EdgeContainsUnknownNode,
    /// Target set contains unknown node.
    TargetSetContainsUnknownNode,
    /// Graph has no entry node.
    GraphHasNoEntryNode,
}

/// Errors that can be returned from flow graph APIs.
#[derive(Clone, Copy, Debug, PartialEq, Eq, Structural)]
pub enum FlowGraphError {
    /// The start node was not found in the graph.
    StartNodeNotFound,
    /// The final node was not found in the graph.
    FinalNodeNotFound,
}

impl DominatorFinderError {
    /// The text that describes the error.
    pub fn message(&self) -> (text: &'static str)
        ensures
            text@ == match self {
                DominatorFinderError::EdgeContainsUnknownNode =>
                    "Invalid input: edge contains unknown node"@,
                DominatorFinderError::TargetSetContainsUnknownNode =>
                    "Invalid input: target set contains unknown node"@,
                DominatorFinderError::GraphHasNoEntryNode => "Graph has no entry node"@,
            },
    {
        match self {
            DominatorFinderError::EdgeContainsUnknownNode => {
                "Invalid input: edge contains unknown node"
            },
            DominatorFinderError::TargetSetContainsUnknownNode => {
                "Invalid input: target set contains unknown node"
            },
            DominatorFinderError::GraphHasNoEntryNode => "Graph has no entry node",
        }
    }
}

impl FlowGraphError {
    /// The text that describes the error.
    pub fn message(&self) -> (text: &'static str)
        ensures
            text@ == match self {
                FlowGraphError::StartNodeNotFound => "Start node not found in graph"@,
                FlowGraphError::FinalNodeNotFound => "Final node not found in graph"@,
            },
    {
        match self {
            FlowGraphError::StartNodeNotFound => "Start node not found in graph",
            FlowGraphError::FinalNodeNotFound => "Final node not found in graph",
        }
    }
}

} // verus!
