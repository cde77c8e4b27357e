//! Simple directed graphs.

use graph_dominators::OrderedMap;
use graph_dominators::OrderedSet;
use graph_dominators::SimpleDirectedGraph;
use std::hash::Hash;

fn copied<T: Copy>(items: Vec<&T>) -> Vec<T> {
    items.into_iter().copied().collect()
}

fn copied_pairs<T: Copy>(items: Vec<(&T, &T)>) -> Vec<(T, T)> {
    items.into_iter().map(|(&u, &v)| (u, v)).collect()
}

fn adjacency_map<T: Copy + Eq + Hash>(lists: Vec<(T, Vec<T>)>) -> OrderedMap<T, OrderedSet<T>> {
    OrderedMap::from_entries(
        lists
            .into_iter()
            .map(|(node, children)| (node, OrderedSet::from_items(children)))
            .collect(),
    )
}

#[test]
fn test_simple_directed_graph_new() {
    let adj = adjacency_map(vec![("A", vec!["B"]), ("B", vec![])]);
    let graph = SimpleDirectedGraph::new(adj.clone());
    assert!(*graph.adj() == adj);

    // adj does not have entries for "B" or "D".
    let adj = adjacency_map(vec![("A", vec!["B", "C", "D"]), ("C", vec![])]);
    let graph = SimpleDirectedGraph::new(adj);
    assert!(
        *graph.adj()
            == adjacency_map(vec![
                ("A", vec!["B", "C", "D"]),
                ("C", vec![]),
                ("B", vec![]),
                ("D", vec![]),
            ])
    );
}

#[test]
fn test_simple_directed_graph_nodes() {
    let graph = SimpleDirectedGraph::from_edge_list(vec![("A", "B"), ("B", "C")]);
    let nodes = copied(graph.nodes());
    assert_eq!(nodes, vec!["A", "B", "C"]);

    let graph = SimpleDirectedGraph::<String>::from_edge_list(vec![]);
    let nodes = graph.nodes();
    assert!(nodes.is_empty());
}

#[test]
fn test_simple_directed_graph_edges() {
    let graph = SimpleDirectedGraph::from_edge_list(vec![("A", "B"), ("B", "C"), ("A", "C")]);
    let edges = copied_pairs(graph.edges());
    assert_eq!(edges, vec![("A", "B"), ("A", "C"), ("B", "C")]);

    let graph = SimpleDirectedGraph::<String>::from_edge_list(vec![]);
    let edges = graph.edges();
    assert!(edges.is_empty());
}

#[test]
fn test_simple_directed_graph_adjacent_nodes() {
    let graph = SimpleDirectedGraph::from_edge_list(vec![("A", "B"), ("A", "C"), ("B", "D")]);
    assert_eq!(
        copied(graph.adjacent_nodes(&"A").unwrap()),
        vec!["B", "C"]
    );
    assert_eq!(
        copied(graph.adjacent_nodes(&"B").unwrap()),
        vec!["D"]
    );
    assert!(graph.adjacent_nodes(&"C").unwrap().is_empty());
    assert!(graph.adjacent_nodes(&"Z").is_none());
}

#[test]
fn test_simple_directed_graph_contains_node() {
    let graph = SimpleDirectedGraph::from_edge_list(vec![("A", "B"), ("B", "C")]);
    assert!(graph.contains_node(&"A"));
    assert!(graph.contains_node(&"B"));
    assert!(graph.contains_node(&"C"));
    assert!(!graph.contains_node(&"D"));
}

#[test]
fn test_simple_directed_graph_from_edge_list() {
    let graph = SimpleDirectedGraph::from_edge_list(vec![
        ("A", "B"),
        ("A", "C"),
        ("B", "C"),
        ("A", "B"),
    ]);
    let nodes = copied(graph.nodes());
    assert_eq!(nodes, vec!["A", "B", "C"]);
    let edges = copied_pairs(graph.edges());
    assert_eq!(edges, vec![("A", "B"), ("A", "C"), ("B", "C")]);

    let graph = SimpleDirectedGraph::from_edge_list(vec![("B", "C"), ("A", "B")]);
    let nodes = copied(graph.nodes());
    assert_eq!(nodes, vec!["B", "A", "C"]);
    let edges = copied_pairs(graph.edges());
    assert_eq!(edges, vec![("B", "C"), ("A", "B")]);
}

#[test]
fn test_simple_directed_graph_from_adjacency_list() {
    let adj_list = vec![("A", vec!["B", "C"]), ("B", vec!["D"]), ("C", vec![])];
    let graph = SimpleDirectedGraph::from_adjacency_list(adj_list);
    let nodes = copied(graph.nodes());
    assert_eq!(nodes, vec!["A", "B", "C", "D"]);
    let edges = copied_pairs(graph.edges());
    assert_eq!(edges, vec![("A", "B"), ("A", "C"), ("B", "D")]);

    let adj_list_with_missing = vec![("A", vec!["B"])];
    let graph = SimpleDirectedGraph::from_adjacency_list(adj_list_with_missing);
    assert!(graph.contains_node(&"B"));
}

#[test]
fn ordered_set_keeps_first_occurrences() {
    let set = OrderedSet::from_items(vec![3, 1, 3, 2, 1]);
    assert!(set == OrderedSet::from_items(vec![1, 2, 3]));
    assert!(set != OrderedSet::from_items(vec![1, 2]));
    assert!(set != OrderedSet::from_items(vec![1, 2, 4]));
    assert!(set.clone() == set);
    assert!(OrderedSet::<u8>::default() == OrderedSet::from_items(vec![]));
    // The order shows in the graph.
    let graph = SimpleDirectedGraph::new(OrderedMap::from_entries(vec![(0, set)]));
    assert_eq!(copied(graph.adjacent_nodes(&0).unwrap()), vec![3, 1, 2]);
    assert_eq!(copied(graph.nodes()), vec![0, 3, 1, 2]);
}

#[test]
fn ordered_map_keeps_last_values_in_first_places() {
    let map = OrderedMap::from_entries(vec![(2, 'a'), (1, 'b'), (2, 'c')]);
    assert!(map == OrderedMap::from_entries(vec![(1, 'b'), (2, 'c')]));
    assert!(map != OrderedMap::from_entries(vec![(2, 'a'), (1, 'b')]));
    assert!(map != OrderedMap::from_entries(vec![(2, 'c')]));
    assert!(map.clone() == map);
    // The order shows in the graph.
    let graph = SimpleDirectedGraph::new(adjacency_map(vec![
        (2, vec![9]),
        (1, vec![]),
        (2, vec![7]),
    ]));
    assert_eq!(copied(graph.nodes()), vec![2, 1, 7]);
    assert_eq!(copied_pairs(graph.edges()), vec![(2, 7)]);
}

#[test]
fn new_completes_in_order() {
    let graph = SimpleDirectedGraph::new(adjacency_map(vec![(1, vec![5, 2, 4]), (2, vec![4, 6])]));
    assert_eq!(copied(graph.nodes()), vec![1, 2, 5, 4, 6]);
    assert_eq!(
        copied_pairs(graph.edges()),
        vec![(1, 5), (1, 2), (1, 4), (2, 4), (2, 6)]
    );
    // Completing once more changes nothing.
    let again = SimpleDirectedGraph::new(graph.adj().clone());
    assert_eq!(again.nodes(), graph.nodes());
    assert_eq!(again.edges(), graph.edges());
}

#[test]
fn from_adjacency_list_merges_lists() {
    let graph = SimpleDirectedGraph::from_adjacency_list(vec![
        (2, vec![3, 1]),
        (4, vec![]),
        (2, vec![1, 5, 5]),
    ]);
    assert_eq!(copied(graph.nodes()), vec![2, 4, 3, 1, 5]);
    assert_eq!(
        copied_pairs(graph.edges()),
        vec![(2, 3), (2, 1), (2, 5)]
    );
}

#[test]
fn no_edge_is_listed_twice() {
    let graph = SimpleDirectedGraph::from_edge_list(vec![(1, 2), (2, 1), (1, 2), (1, 1), (1, 1)]);
    assert_eq!(copied_pairs(graph.edges()), vec![(1, 2), (1, 1), (2, 1)]);
}

#[test]
fn reverse_reverses_edges() {
    let graph = SimpleDirectedGraph::from_adjacency_list(vec![
        (1, vec![3]),
        (2, vec![3, 1, 2]),
        (3, vec![]),
        (4, vec![]),
    ]);
    let reversed = graph.reverse();
    assert_eq!(copied(reversed.nodes()), vec![1, 3, 2, 4]);
    assert_eq!(
        copied_pairs(reversed.edges()),
        vec![(1, 2), (3, 1), (3, 2), (2, 2)]
    );
    assert!(reversed != graph);
}

#[test]
fn reverse_twice_gives_the_graph_back() {
    let graph =
        SimpleDirectedGraph::from_adjacency_list(vec![(3, vec![1, 2]), (2, vec![3]), (4, vec![])]);
    assert!(graph.reverse().reverse() == graph);
}

#[test]
fn equal_graphs_have_the_same_nodes_and_edges() {
    let graph = SimpleDirectedGraph::from_edge_list(vec![(1, 2), (1, 3), (2, 3)]);
    assert!(graph == SimpleDirectedGraph::from_edge_list(vec![(2, 3), (1, 3), (1, 2)]));
    assert!(graph != SimpleDirectedGraph::from_edge_list(vec![(1, 2), (1, 3), (3, 2)]));
    // One more node makes a difference.
    let larger = SimpleDirectedGraph::from_adjacency_list(vec![
        (1, vec![2, 3]),
        (2, vec![3]),
        (4, vec![]),
    ]);
    assert!(graph != larger);
    assert!(graph.clone() == graph);
}
