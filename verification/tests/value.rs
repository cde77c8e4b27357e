//! Flow graphs of values.

use graph_dominators::FlowGraph;
use graph_dominators::FlowGraphError;
use graph_dominators::OrderedMap;
use graph_dominators::OrderedSet;
use graph_dominators::SimpleDirectedGraph;
use graph_dominators::ValueFlowGraph;
use std::collections::HashMap;

#[test]
fn test_value_flow_graph_new() {
    // A(1) -> B(1) -> C(2)
    let edges = vec![("A", "B"), ("B", "C")];
    let simple_graph = SimpleDirectedGraph::from_edge_list(edges);
    let flow_graph = FlowGraph::new(simple_graph, "A").unwrap();
    let value_fn = |node: &&str| -> Result<i32, ()> {
        if *node == "A" || *node == "B" {
            Ok(1)
        } else {
            Ok(2)
        }
    };
    let value_flow_graph = ValueFlowGraph::new(&flow_graph, &value_fn).unwrap();

    let expected_value_adj: OrderedMap<i32, OrderedSet<i32>> = OrderedMap::from_entries(vec![
        (1, OrderedSet::from_items(vec![1, 2])),
        (2, OrderedSet::from_items(vec![])),
    ]);
    let expected_flow_graph =
        FlowGraph::new(SimpleDirectedGraph::new(expected_value_adj), 1).unwrap();
    assert!(value_flow_graph.value_flow_graph == expected_flow_graph);

    let mut expected_node_values = HashMap::new();
    expected_node_values.insert("A", 1);
    expected_node_values.insert("B", 1);
    expected_node_values.insert("C", 2);
    assert_eq!(value_flow_graph.node_values, expected_node_values);

    let mut expected_value_to_nodes = HashMap::new();
    expected_value_to_nodes.insert(1, vec!["A", "B"]);
    expected_value_to_nodes.insert(2, vec!["C"]);
    assert_eq!(value_flow_graph.value_to_nodes, expected_value_to_nodes);

    // Test value_fn error
    let value_fn_err = |_: &&str| -> Result<i32, String> { Err("Error".to_string()) };
    let value_flow_graph_err = ValueFlowGraph::new(&flow_graph, &value_fn_err);
    assert_eq!(value_flow_graph_err.err(), Some("Error".to_string()));
}

#[test]
fn test_value_flow_graph_find_dominator_value() {
    // A(1) -> B(1) -> C(2) -> D(3)
    //          \------------> E(3)
    let edges = vec![("A", "B"), ("B", "C"), ("C", "D"), ("B", "E")];
    let simple_graph = SimpleDirectedGraph::from_edge_list(edges);
    let flow_graph = FlowGraph::new(simple_graph, "A").unwrap();
    let value_fn = |node: &&str| match *node {
        "A" | "B" => Ok(1),
        "C" => Ok(2),
        "D" | "E" => Ok(3),
        _ => Err("Unknown node".to_string()),
    };
    let value_flow_graph = ValueFlowGraph::new(&flow_graph, &value_fn).unwrap();

    // Value graph (* means node has a self-loop):
    //   1* -> 2 -> 3
    //    \         ^
    //     \--------|
    assert_eq!(
        value_flow_graph.find_dominator_value(&["D", "E"]),
        Ok(Some(3))
    );
    assert_eq!(
        value_flow_graph.find_dominator_value(&["C", "D"]),
        Ok(Some(1))
    );
    assert_eq!(
        value_flow_graph.find_dominator_value(&["B", "C"]),
        Ok(Some(1))
    );

    // Disjoint values: A(1) -> B(1), C(2) -> D(2)
    let edges = vec![("A", "B"), ("C", "D")];
    let simple_graph = SimpleDirectedGraph::from_edge_list(edges);
    let flow_graph = FlowGraph::new(simple_graph, "A").unwrap();
    let value_fn = |node: &&str| match *node {
        "A" | "B" => Ok(1),
        "C" | "D" => Ok(2),
        _ => Err("Unknown node".to_string()),
    };
    let value_flow_graph = ValueFlowGraph::new(&flow_graph, &value_fn).unwrap();
    assert_eq!(value_flow_graph.find_dominator_value(&["B", "D"]), Ok(None));
}

fn flow(edges: Vec<(u32, u32)>, start: u32) -> FlowGraph<u32> {
    FlowGraph::new(SimpleDirectedGraph::from_edge_list(edges), start)
        .ok()
        .unwrap()
}

#[test]
fn the_first_error_comes_out() {
    // Asked in this order: 2, 1, 3, 4.
    let graph = flow(vec![(1, 3), (2, 4), (3, 4)], 2);
    let fails_at = |bad: Vec<u32>| {
        let value_fn = |n: &u32| if bad.contains(n) { Err(*n) } else { Ok(*n) };
        ValueFlowGraph::new(&graph, &value_fn).err()
    };
    assert_eq!(fails_at(vec![1, 2, 3, 4]), Some(2));
    assert_eq!(fails_at(vec![4, 3, 1]), Some(1));
    assert_eq!(fails_at(vec![4, 3]), Some(3));
    assert_eq!(fails_at(vec![4]), Some(4));
    assert_eq!(fails_at(vec![9]), None);
}

#[test]
fn values_are_listed_with_their_nodes() {
    let graph = flow(vec![(1, 3), (2, 4), (3, 4)], 2);
    let value_fn = |n: &u32| -> Result<u32, ()> { Ok(n % 2) };
    let values = ValueFlowGraph::new(&graph, &value_fn).unwrap();
    assert_eq!(values.value_to_nodes.len(), 2);
    assert_eq!(values.value_to_nodes[&0], vec![2, 4]);
    assert_eq!(values.value_to_nodes[&1], vec![1, 3]);
    for (node, value) in &values.node_values {
        assert!(values.value_to_nodes[value].contains(node));
    }
    assert_eq!(values.node_values.len(), 4);
}

#[test]
fn values_may_make_cycles() {
    // 1 -> 2 -> 3 -> 4 has no cycle, its values have.
    let graph = flow(vec![(1, 2), (2, 3), (3, 4)], 1);
    let value_fn = |n: &u32| -> Result<u32, ()> { Ok(n % 2) };
    let values = ValueFlowGraph::new(&graph, &value_fn).unwrap();
    assert_eq!(values.value_flow_graph.start_node, 1);
    assert_eq!(values.value_flow_graph.graph.nodes(), vec![&1, &0]);
    assert_eq!(
        values.value_flow_graph.graph.edges(),
        vec![(&1, &0), (&0, &1)]
    );
    assert_eq!(values.find_dominator_value(&[2, 3]), Ok(Some(1)));
}

#[test]
fn unknown_final_nodes() {
    let graph = flow(vec![(1, 2)], 1);
    let value_fn = |n: &u32| -> Result<u32, ()> { Ok(*n) };
    let values = ValueFlowGraph::new(&graph, &value_fn).unwrap();
    assert_eq!(
        values.find_dominator_value(&[2, 3]),
        Err(FlowGraphError::FinalNodeNotFound)
    );
    assert_eq!(values.find_dominator_value(&[]), Ok(None));
    assert!(values.clone() == values);
}

#[test]
fn a_start_node_that_leads_everywhere_gives_a_dominator_value() {
    let graph = flow(vec![(1, 2), (1, 3), (2, 4), (3, 5), (4, 6), (5, 6)], 1);
    let value_fn = |n: &u32| -> Result<u32, ()> { Ok(n / 2) };
    let values = ValueFlowGraph::new(&graph, &value_fn).unwrap();
    // The values form the chain 0, 1, 2, 3.
    assert_eq!(values.find_dominator_value(&[4, 5]), Ok(Some(2)));
    assert_eq!(values.find_dominator_value(&[2, 6]), Ok(Some(1)));
    assert_eq!(values.find_dominator_value(&[1, 6]), Ok(Some(0)));
}

#[test]
fn another_way_to_a_final_value() {
    // The start node 1 dominates 1 and 2. The value of 2 is also that of 4, to which 3 leads, but
    // not the start node.
    let graph = flow(vec![(1, 2), (3, 4)], 1);
    assert_eq!(graph.find_closest_common_dominator(vec![1, 2]), Some(1));
    let value_fn = |n: &u32| -> Result<u32, ()> { Ok(if *n == 4 { 2 } else { *n }) };
    let values = ValueFlowGraph::new(&graph, &value_fn).unwrap();
    assert_eq!(values.find_dominator_value(&[1, 2]), Ok(Some(1)));
    assert_eq!(values.find_dominator_value(&[2, 4]), Ok(Some(2)));
    assert_eq!(values.find_dominator_value(&[3]), Ok(None));
}

#[test]
fn a_dominating_start_node_gives_a_dominator_value() {
    // S -> F, C -> X, where F and X have the same value.
    let edges = vec![("S", "F"), ("C", "X")];
    let graph = FlowGraph::new(SimpleDirectedGraph::from_edge_list(edges), "S")
        .ok()
        .unwrap();
    let value_fn = |n: &&str| -> Result<i32, ()> {
        Ok(match *n {
            "S" => 1,
            "F" | "X" => 2,
            _ => 3,
        })
    };
    let values = ValueFlowGraph::new(&graph, &value_fn).unwrap();
    assert_eq!(graph.find_closest_common_dominator(vec!["S", "F"]), Some("S"));
    assert_eq!(values.find_dominator_value(&["S", "F"]), Ok(Some(1)));
}
