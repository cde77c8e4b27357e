//! Flow graphs.

use graph_dominators::find_closest_common_dominator;
use graph_dominators::FlowGraph;
use graph_dominators::FlowGraphError;
use graph_dominators::OrderedMap;
use graph_dominators::OrderedSet;
use graph_dominators::SimpleDirectedGraph;

#[test]
fn test_flow_graph_new() {
    let graph = SimpleDirectedGraph::from_edge_list(vec![("A", "B")]);
    let flow_graph = FlowGraph::new(graph.clone(), "A").unwrap();
    assert!(flow_graph.graph == graph);
    assert_eq!(flow_graph.start_node, "A");

    let flow_graph_err = FlowGraph::new(graph, "C");
    assert_eq!(
        flow_graph_err.err(),
        Some(FlowGraphError::StartNodeNotFound)
    );
}

#[test]
fn test_flow_graph_trim() {
    // A -> B -> C -> D -> E
    // |         ^
    // v         |
    // F --------/
    let edges = vec![
        ("A", "B"),
        ("B", "C"),
        ("C", "D"),
        ("D", "E"),
        ("A", "F"),
        ("F", "C"),
    ];
    let simple_graph = SimpleDirectedGraph::from_edge_list(edges.clone());
    let flow_graph = FlowGraph::new(simple_graph, "A").unwrap();

    // Trim from E
    let trimmed = flow_graph.clone().trim(&["E"]);
    let expected_graph = SimpleDirectedGraph::from_edge_list(edges.clone());
    assert!(trimmed.graph == expected_graph);
    assert_eq!(trimmed.start_node, "A");

    // Trim from C and E
    let trimmed = flow_graph.clone().trim(&["C", "E"]);
    let expected_graph = SimpleDirectedGraph::from_edge_list(edges.clone());
    assert!(trimmed.graph == expected_graph);

    // Trim from F
    let trimmed = flow_graph.clone().trim(&["F"]);
    let expected_graph = SimpleDirectedGraph::from_edge_list(vec![("A", "F")]);
    assert!(trimmed.graph == expected_graph);

    // Trim from A (start node is in the target set)
    let trimmed = flow_graph.clone().trim(&["A"]);
    let expected_graph = SimpleDirectedGraph::new(OrderedMap::from_entries(vec![(
        "A",
        OrderedSet::from_items(vec![]),
    )]));
    assert!(trimmed.graph == expected_graph);
}

#[test]
fn test_flow_graph_find_closest_common_dominator() {
    // A -> B -> C -> D
    let edges = vec![("A", "B"), ("B", "C"), ("C", "D")];
    let simple_graph = SimpleDirectedGraph::from_edge_list(edges);
    let flow_graph = FlowGraph::new(simple_graph, "A").unwrap();
    assert_eq!(
        flow_graph.find_closest_common_dominator(vec!["C", "D"]),
        Some("C")
    );
    assert_eq!(
        flow_graph.find_closest_common_dominator(vec!["B", "D"]),
        Some("B")
    );
    assert_eq!(
        flow_graph.find_closest_common_dominator(vec!["A", "D"]),
        Some("A")
    );

    // Diamond: A -> {B, C} -> D
    let edges = vec![("A", "B"), ("A", "C"), ("B", "D"), ("C", "D")];
    let simple_graph = SimpleDirectedGraph::from_edge_list(edges);
    let flow_graph = FlowGraph::new(simple_graph, "A").unwrap();
    assert_eq!(
        flow_graph.find_closest_common_dominator(vec!["B", "C"]),
        Some("A")
    );
    assert_eq!(
        flow_graph.find_closest_common_dominator(vec!["B", "D"]),
        Some("A")
    );
    assert_eq!(
        flow_graph.find_closest_common_dominator(vec!["D"]),
        Some("D")
    );

    // Disjoint: A -> B, C -> D
    let edges = vec![("A", "B"), ("C", "D")];
    let simple_graph = SimpleDirectedGraph::from_edge_list(edges);
    let flow_graph = FlowGraph::new(simple_graph, "A").unwrap();
    assert_eq!(
        flow_graph.find_closest_common_dominator(vec!["B", "D"]),
        None
    );
    assert_eq!(
        flow_graph.find_closest_common_dominator(vec!["B", "C"]),
        None
    );
}

fn nodes_of(graph: &FlowGraph<u32>) -> Vec<u32> {
    graph.graph.nodes().into_iter().copied().collect()
}

fn edges_of(graph: &FlowGraph<u32>) -> Vec<(u32, u32)> {
    graph
        .graph
        .edges()
        .into_iter()
        .map(|(&u, &v)| (u, v))
        .collect()
}

fn flow(edges: Vec<(u32, u32)>, start: u32) -> FlowGraph<u32> {
    FlowGraph::new(SimpleDirectedGraph::from_edge_list(edges), start)
        .ok()
        .unwrap()
}

#[test]
fn error_messages_of_flow_graphs() {
    assert_eq!(
        FlowGraphError::StartNodeNotFound.message(),
        "Start node not found in graph"
    );
    assert_eq!(
        FlowGraphError::FinalNodeNotFound.message(),
        "Final node not found in graph"
    );
}

#[test]
fn flow_graphs_compare_graph_and_start() {
    let a = flow(vec![(1, 2), (2, 3)], 1);
    assert!(a == flow(vec![(2, 3), (1, 2)], 1));
    assert!(a != flow(vec![(1, 2), (2, 3)], 2));
    assert!(a != flow(vec![(1, 2)], 1));
    assert!(a.clone() == a);
}

#[test]
fn trim_goes_past_the_start_node() {
    // 9 -> 1 -> 2 -> 3, and 3 -> 1 closes a cycle.
    let trimmed = flow(vec![(9, 1), (1, 2), (2, 3), (3, 1), (3, 4)], 1).trim(&[3]);
    assert_eq!(trimmed.start_node, 1);
    assert_eq!(nodes_of(&trimmed), vec![2, 1, 9, 3]);
    assert_eq!(edges_of(&trimmed), vec![(2, 3), (1, 2), (9, 1), (3, 1)]);
    // Z -> A -> B
    let edges = vec![("Z", "A"), ("A", "B")];
    let graph = FlowGraph::new(SimpleDirectedGraph::from_edge_list(edges.clone()), "A")
        .ok()
        .unwrap();
    let trimmed = graph.trim(&["B"]);
    assert!(trimmed.graph == SimpleDirectedGraph::from_edge_list(edges));
    assert_eq!(trimmed.start_node, "A");
}

#[test]
fn trim_keeps_the_start_node() {
    // The start node does not lead to the final node.
    let trimmed = flow(vec![(1, 2), (3, 4), (5, 4), (2, 6)], 1).trim(&[4]);
    assert_eq!(nodes_of(&trimmed), vec![3, 5, 1, 4]);
    assert_eq!(edges_of(&trimmed), vec![(3, 4), (5, 4)]);
    // No final nodes at all.
    let trimmed = flow(vec![(1, 2)], 1).trim(&[]);
    assert_eq!(nodes_of(&trimmed), vec![1]);
    // A final node that is not in the graph.
    let trimmed = flow(vec![(1, 2)], 1).trim(&[7]);
    assert_eq!(nodes_of(&trimmed), vec![1]);
}

#[test]
fn trim_keeps_final_nodes_without_edges() {
    let graph = SimpleDirectedGraph::from_adjacency_list(vec![(1, vec![]), (2, vec![])]);
    let trimmed = FlowGraph::new(graph, 1).ok().unwrap().trim(&[2]);
    assert_eq!(nodes_of(&trimmed), vec![1, 2]);
    assert_eq!(edges_of(&trimmed), vec![]);
    // A -> B, C -> D
    let edges = vec![("A", "B"), ("C", "D")];
    let graph = FlowGraph::new(SimpleDirectedGraph::from_edge_list(edges), "A")
        .ok()
        .unwrap();
    let trimmed = graph.trim(&["C"]);
    assert_eq!(trimmed.graph.nodes(), vec![&"A", &"C"]);
    assert!(trimmed.graph.edges().is_empty());
}

#[test]
fn trim_keeps_edges_among_what_leads_to_final_nodes() {
    // The start node is on the way to the other final node: what leads to it is kept.
    let trimmed = flow(vec![(1, 2), (2, 1), (3, 1), (2, 4), (4, 2), (2, 2)], 1).trim(&[1, 4, 4]);
    assert_eq!(nodes_of(&trimmed), vec![2, 1, 4, 3]);
    assert_eq!(
        edges_of(&trimmed),
        vec![(2, 4), (2, 2), (2, 1), (1, 2), (4, 2), (3, 1)]
    );
}

#[test]
fn trim_twice_changes_nothing() {
    let graph = flow(
        vec![(1, 2), (2, 3), (3, 1), (4, 3), (5, 4), (3, 6), (6, 7)],
        1,
    );
    let once = graph.trim(&[3, 6]);
    let twice = once.clone().trim(&[3, 6]);
    assert!(once == twice);
}

#[test]
fn trim_keeps_closest_common_dominators() {
    let edges = vec![
        (1, 2),
        (1, 3),
        (2, 4),
        (3, 4),
        (4, 5),
        (4, 6),
        (6, 2),
        (7, 5),
        (8, 1),
        (5, 9),
    ];
    let graph = flow(edges, 1);
    for a in 1..10 {
        for b in 1..10 {
            let trimmed = graph.clone().trim(&[a, b]);
            assert_eq!(
                trimmed.find_closest_common_dominator(vec![a, b]),
                graph.find_closest_common_dominator(vec![a, b])
            );
        }
    }
    let trimmed = graph.clone().trim(&[5, 6]);
    assert_eq!(trimmed.find_closest_common_dominator(vec![5, 6]), Some(4));
}

#[test]
fn a_dominating_start_node_gives_a_common_dominator() {
    // 3 is not an entry of its own.
    let graph = flow(vec![(1, 2), (1, 3), (2, 4), (3, 4), (4, 1)], 1);
    assert_eq!(graph.find_closest_common_dominator(vec![2, 3]), Some(1));
    assert_eq!(graph.find_closest_common_dominator(vec![4]), Some(4));
    assert_eq!(graph.find_closest_common_dominator(vec![4, 2, 3]), Some(1));
}

#[test]
fn a_start_node_that_dominates_some_but_not_all() {
    let graph = flow(vec![(1, 2), (3, 4), (3, 5)], 1);
    assert_eq!(graph.find_closest_common_dominator(vec![2, 4]), None);
    assert_eq!(graph.find_closest_common_dominator(vec![1, 4]), None);
    // Nor do nodes have one to which the start node does not lead.
    assert_eq!(graph.find_closest_common_dominator(vec![4, 5]), None);
    assert_eq!(graph.find_closest_common_dominator(vec![3, 4]), None);
    assert_eq!(graph.find_closest_common_dominator(vec![4]), None);
    assert_eq!(graph.find_closest_common_dominator(vec![2]), Some(2));
}

#[test]
fn ways_that_do_not_begin_at_the_start_node_do_not_count() {
    // 1 -> 2 -> 3, and 5 leads to 3 as well.
    let graph = flow(vec![(1, 2), (2, 3), (3, 4), (5, 3), (5, 6)], 1);
    assert_eq!(graph.find_closest_common_dominator(vec![2, 3]), Some(2));
    assert_eq!(graph.find_closest_common_dominator(vec![1, 4]), Some(1));
    assert_eq!(graph.find_closest_common_dominator(vec![5]), None);
    assert_eq!(graph.find_closest_common_dominator(vec![3, 6]), None);
}

#[test]
fn the_start_node_is_an_entry_even_in_a_cycle() {
    let graph = flow(vec![(1, 2), (2, 3), (3, 1)], 2);
    assert_eq!(graph.find_closest_common_dominator(vec![1, 3]), Some(3));
    assert_eq!(graph.find_closest_common_dominator(vec![1, 2]), Some(2));
}

#[test]
fn nothing_to_dominate() {
    let graph = flow(vec![(1, 2)], 1);
    assert_eq!(graph.find_closest_common_dominator(vec![]), None);
    assert_eq!(graph.find_closest_common_dominator(vec![2, 7]), None);
    // A start node that is not in the graph.
    let stray = FlowGraph {
        graph: graph.graph,
        start_node: 7,
    };
    assert_eq!(stray.find_closest_common_dominator(vec![2]), None);
}

#[test]
fn a_start_node_that_is_the_only_entry_is_an_ordinary_entry() {
    let edges = vec![(1, 2), (1, 3), (2, 4), (3, 4), (5, 4), (4, 6), (3, 5), (5, 7)];
    let graph = flow(edges.clone(), 1);
    for a in 1..8 {
        for b in 1..8 {
            assert_eq!(
                Ok(graph.find_closest_common_dominator(vec![a, b])),
                find_closest_common_dominator(nodes_of(&graph), edges.clone(), vec![a, b])
            );
        }
    }
}
