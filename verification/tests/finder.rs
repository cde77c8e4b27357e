//! Closest common dominators in graphs given by nodes and edges.

use graph_dominators::find_closest_common_dominator;
use graph_dominators::DominatorFinder;
use graph_dominators::DominatorFinderError;

fn new_dominator_finder(nodes: Vec<&str>, edges: Vec<(&str, &str)>) -> DominatorFinder<String> {
    let nodes_string: Vec<String> = nodes.iter().map(|&n| n.to_string()).collect();
    let edges_string: Vec<(String, String)> = edges
        .iter()
        .map(|&(u, v)| (u.to_string(), v.to_string()))
        .collect();
    DominatorFinder::new(nodes_string, edges_string).unwrap()
}

fn closest_common_dominator(
    nodes: &[&str],
    edges: &[(&str, &str)],
    s: Vec<&str>,
    expected: Option<&str>,
) {
    let finder = new_dominator_finder(nodes.to_owned(), edges.to_owned());
    let s_string = s.iter().map(|&n| n.to_string()).collect::<Vec<String>>();
    let result = finder.closest_common_dominator(s_string).unwrap();
    assert_eq!(result, expected.map(|e| e.to_string()));
}

fn closest_common_dominator_expect_error(
    nodes: &[&str],
    edges: &[(&str, &str)],
    s: Vec<&str>,
    expected_error: DominatorFinderError,
) {
    let finder = new_dominator_finder(nodes.to_owned(), edges.to_owned());
    let s_string = s.iter().map(|&n| n.to_string()).collect::<Vec<String>>();
    let result = finder.closest_common_dominator(s_string);
    assert_eq!(result, Err(expected_error));
}

#[test]
fn test_closest_common_dominator_split() {
    //   /-> B -> D
    // A
    //   \-> C -> D
    let nodes = vec!["A", "B", "C", "D"];
    let edges = vec![("A", "B"), ("A", "C"), ("B", "D"), ("C", "D")];

    closest_common_dominator(&nodes, &edges, vec!["A"], Some("A"));
    closest_common_dominator(&nodes, &edges, vec!["B"], Some("B"));
    closest_common_dominator(&nodes, &edges, vec!["C"], Some("C"));
    closest_common_dominator(&nodes, &edges, vec!["D"], Some("D"));

    closest_common_dominator(&nodes, &edges, vec!["B", "C"], Some("A"));
    closest_common_dominator(&nodes, &edges, vec!["B", "D"], Some("A"));
    closest_common_dominator(&nodes, &edges, vec!["B", "C", "D"], Some("A"));
}

#[test]
fn test_closest_common_dominator_linear_chain() {
    // A -> B -> C -> D
    let nodes = vec!["A", "B", "C", "D"];
    let edges = vec![("A", "B"), ("B", "C"), ("C", "D")];

    closest_common_dominator(&nodes, &edges, vec!["A"], Some("A"));
    closest_common_dominator(&nodes, &edges, vec!["B"], Some("B"));
    closest_common_dominator(&nodes, &edges, vec!["C"], Some("C"));
    closest_common_dominator(&nodes, &edges, vec!["D"], Some("D"));

    closest_common_dominator(&nodes, &edges, vec!["A", "B"], Some("A"));
    closest_common_dominator(&nodes, &edges, vec!["A", "C"], Some("A"));
    closest_common_dominator(&nodes, &edges, vec!["A", "D"], Some("A"));
    closest_common_dominator(&nodes, &edges, vec!["B", "D"], Some("B"));
    closest_common_dominator(&nodes, &edges, vec!["C", "D"], Some("C"));
    closest_common_dominator(&nodes, &edges, vec!["A", "B", "C", "D"], Some("A"));
}

#[test]
fn test_closest_common_dominator_disjoint_no_common() {
    // A -> B
    // C -> D
    let nodes = vec!["A", "B", "C", "D"];
    let edges = vec![("A", "B"), ("C", "D")];

    closest_common_dominator(&nodes, &edges, vec!["A", "C"], None);
    closest_common_dominator(&nodes, &edges, vec!["A", "D"], None);
    closest_common_dominator(&nodes, &edges, vec!["B", "D"], None);

    closest_common_dominator(&nodes, &edges, vec!["A"], Some("A"));
    closest_common_dominator(&nodes, &edges, vec!["B"], Some("B"));
    closest_common_dominator(&nodes, &edges, vec!["A", "B"], Some("A"));
}

#[test]
fn test_closest_common_dominator_classic_diamond() {
    //      /-> B -\
    //    A          -> D -> E
    //      \-> C -/
    let nodes = vec!["A", "B", "C", "D", "E"];
    let edges = vec![("A", "B"), ("A", "C"), ("B", "D"), ("C", "D"), ("D", "E")];

    closest_common_dominator(&nodes, &edges, vec!["B", "C"], Some("A"));
    closest_common_dominator(&nodes, &edges, vec!["B", "E"], Some("A"));
    closest_common_dominator(&nodes, &edges, vec!["D"], Some("D"));
    closest_common_dominator(&nodes, &edges, vec!["D", "E"], Some("D"));
    closest_common_dominator(&nodes, &edges, vec!["A", "D"], Some("A"));
}

#[test]
fn test_closest_common_dominator_basic_y_shape() {
    // A
    //  \
    //    --> C -> D
    //  /
    // B
    let nodes = vec!["A", "B", "C", "D"];
    let edges = vec![("A", "C"), ("B", "C"), ("C", "D")];

    closest_common_dominator(&nodes, &edges, vec!["A", "B"], None);
    closest_common_dominator(&nodes, &edges, vec!["A", "C"], None);
    closest_common_dominator(&nodes, &edges, vec!["C", "D"], Some("C"));

    closest_common_dominator(&nodes, &edges, vec!["A"], Some("A"));
    closest_common_dominator(&nodes, &edges, vec!["B"], Some("B"));
    closest_common_dominator(&nodes, &edges, vec!["C"], Some("C"));
    closest_common_dominator(&nodes, &edges, vec!["D"], Some("D"));
}

#[test]
fn test_closest_common_dominator_single_node() {
    // A
    let nodes = vec!["A"];
    let edges = vec![];

    closest_common_dominator(&nodes, &edges, vec!["A"], Some("A"));
}

#[test]
fn test_closest_common_dominator_generic_integers() {
    // Using Integers instead of Strings
    // 1 -> 2
    // 1 -> 3
    let nodes = vec![1, 2, 3];
    let edges = vec![(1, 2), (1, 3)];

    let finder = DominatorFinder::new(nodes, edges).unwrap();
    let result = finder.closest_common_dominator(vec![2, 3]);
    assert_eq!(result, Ok(Some(1)));
}

#[test]
fn test_closest_common_dominator_complex_multi_source_multi_sink() {
    //       /-> E
    // A -> B
    //       \-> F
    //           ^
    //           |
    // C --> D --/
    let nodes = vec!["A", "B", "C", "D", "E", "F"];
    let edges = vec![("A", "B"), ("B", "E"), ("B", "F"), ("C", "D"), ("D", "F")];

    closest_common_dominator(&nodes, &edges, vec!["E", "F"], None);
    closest_common_dominator(&nodes, &edges, vec!["F"], Some("F"));
    closest_common_dominator(&nodes, &edges, vec!["B", "F"], None);
}

#[test]
fn test_closest_common_dominator_simple_cycle_with_entry() {
    //
    // A -> B -> C -> D
    //      ^         |
    //      |         |
    //      \--------/

    let nodes = vec!["A", "B", "C", "D"];
    let edges = vec![("A", "B"), ("B", "C"), ("C", "D"), ("D", "B")];

    closest_common_dominator(&nodes, &edges, vec!["A", "B"], Some("A"));
    closest_common_dominator(&nodes, &edges, vec!["A", "C"], Some("A"));
    closest_common_dominator(&nodes, &edges, vec!["A", "B", "C"], Some("A"));
    closest_common_dominator(&nodes, &edges, vec!["B", "C"], Some("B"));
    closest_common_dominator(&nodes, &edges, vec!["B", "C", "D"], Some("B"));

    closest_common_dominator(&nodes, &edges, vec!["A"], Some("A"));
    closest_common_dominator(&nodes, &edges, vec!["B"], Some("B"));
    closest_common_dominator(&nodes, &edges, vec!["C"], Some("C"));
    closest_common_dominator(&nodes, &edges, vec!["D"], Some("D"));
}

#[test]
fn test_closest_common_dominator_figure_eight_with_bridge() {
    //
    //  A -> B -> C -> D -> E -> F -> G
    //       ^         |    ^         |
    //       |         |    |         |
    //        \_______/      \_______/
    let nodes = vec!["A", "B", "C", "D", "E", "F", "G"];
    let edges = vec![
        ("A", "B"), // entry
        ("B", "C"),
        ("C", "D"),
        ("D", "B"), // Loop 1
        ("D", "E"), // Bridge
        ("E", "F"),
        ("F", "G"),
        ("G", "E"), // Loop 2
    ];

    closest_common_dominator(&nodes, &edges, vec!["B", "C"], Some("B"));
    closest_common_dominator(&nodes, &edges, vec!["B", "D"], Some("B"));
    closest_common_dominator(&nodes, &edges, vec!["B", "E"], Some("B"));
    closest_common_dominator(&nodes, &edges, vec!["C", "E"], Some("C"));
    closest_common_dominator(&nodes, &edges, vec!["C", "F"], Some("C"));
    closest_common_dominator(&nodes, &edges, vec!["D", "E"], Some("D"));
    closest_common_dominator(&nodes, &edges, vec!["D", "F"], Some("D"));
    closest_common_dominator(&nodes, &edges, vec!["E", "G"], Some("E"));
    closest_common_dominator(&nodes, &edges, vec!["F", "G"], Some("F"));
}

#[test]
fn test_closest_common_dominator_figure_eight() {
    //
    //  A -> B -> C --> D   -> E -> F
    //       ^         | ^          |
    //       |         | |          |
    //        \_______/  \_________/
    let nodes = vec!["A", "B", "C", "D", "E", "F"];
    let edges = vec![
        ("A", "B"), // entry
        ("B", "C"),
        ("C", "D"),
        ("D", "B"), // Loop 1
        ("D", "E"),
        ("E", "F"),
        ("F", "D"), // Loop 2
    ];

    closest_common_dominator(&nodes, &edges, vec!["B", "C"], Some("B"));
    closest_common_dominator(&nodes, &edges, vec!["B", "D"], Some("B"));
    closest_common_dominator(&nodes, &edges, vec!["B", "E"], Some("B"));
    closest_common_dominator(&nodes, &edges, vec!["C", "D"], Some("C"));
    closest_common_dominator(&nodes, &edges, vec!["C", "E"], Some("C"));
    closest_common_dominator(&nodes, &edges, vec!["D", "E"], Some("D"));
    closest_common_dominator(&nodes, &edges, vec!["D", "F"], Some("D"));
    closest_common_dominator(&nodes, &edges, vec!["E", "F"], Some("E"));
}

#[test]
fn test_closest_common_dominator_entry_cycle_dominance() {
    // B -> C -> B (Loop)
    // A -> B
    let nodes = vec!["A", "B", "C"];
    let edges = vec![("A", "B"), ("B", "C"), ("C", "B")];

    closest_common_dominator(&nodes, &edges, vec!["A"], Some("A"));
    closest_common_dominator(&nodes, &edges, vec!["B"], Some("B"));
    closest_common_dominator(&nodes, &edges, vec!["C"], Some("C"));

    closest_common_dominator(&nodes, &edges, vec!["A", "B"], Some("A"));
    closest_common_dominator(&nodes, &edges, vec!["A", "C"], Some("A"));
    closest_common_dominator(&nodes, &edges, vec!["B", "C"], Some("B"));
    closest_common_dominator(&nodes, &edges, vec!["A", "B", "C"], Some("A"));
}

#[test]
fn test_closest_common_dominator_nested_loops() {
    //           /---> E
    //           |     |
    //           |     |
    // A -> B -> C <--/
    //      ^     \--> D
    //      |          |
    //      |----------|
    let nodes = vec!["A", "B", "C", "D", "E"];
    let edges = vec![
        ("A", "B"),
        ("B", "C"),
        ("C", "D"),
        ("C", "E"),
        ("E", "C"),
        ("D", "B"),
    ];

    closest_common_dominator(&nodes, &edges, vec!["A", "B"], Some("A"));
    closest_common_dominator(&nodes, &edges, vec!["A", "C"], Some("A"));
    closest_common_dominator(&nodes, &edges, vec!["B", "C"], Some("B"));
    closest_common_dominator(&nodes, &edges, vec!["B", "D"], Some("B"));
    closest_common_dominator(&nodes, &edges, vec!["B", "E"], Some("B"));
    closest_common_dominator(&nodes, &edges, vec!["C", "D"], Some("C"));
    closest_common_dominator(&nodes, &edges, vec!["C", "E"], Some("C"));
    closest_common_dominator(&nodes, &edges, vec!["D", "E"], Some("C"));

    closest_common_dominator(&nodes, &edges, vec!["B", "C", "D"], Some("B"));
    closest_common_dominator(&nodes, &edges, vec!["B", "C", "E"], Some("B"));
    closest_common_dominator(&nodes, &edges, vec!["B", "D", "E"], Some("B"));
    closest_common_dominator(&nodes, &edges, vec!["C", "D", "E"], Some("C"));

    closest_common_dominator(&nodes, &edges, vec!["B", "C", "D", "E"], Some("B"));
}

#[test]
fn test_closest_common_dominator_tree() {
    // A -> B -> C
    // \     \-> D
    //  \------> E
    let nodes = vec!["A", "B", "C", "D", "E"];
    let edges = vec![("A", "B"), ("B", "C"), ("B", "D"), ("A", "E")];

    closest_common_dominator(&nodes, &edges, vec!["B", "C"], Some("B"));
    closest_common_dominator(&nodes, &edges, vec!["B", "E"], Some("A"));
    closest_common_dominator(&nodes, &edges, vec!["C", "D"], Some("B"));
    closest_common_dominator(&nodes, &edges, vec!["C", "E"], Some("A"));

    closest_common_dominator(&nodes, &edges, vec!["B", "C", "D"], Some("B"));
    closest_common_dominator(&nodes, &edges, vec!["C", "D", "E"], Some("A"));
}

#[test]
fn test_closest_common_dominator_bypassing_path() {
    // A -> B -> C -> D
    // |              ^
    // v              |
    // E -------------/
    let nodes = vec!["A", "B", "C", "D", "E"];
    let edges = vec![("A", "B"), ("B", "C"), ("C", "D"), ("A", "E"), ("E", "D")];

    closest_common_dominator(&nodes, &edges, vec!["B", "C"], Some("B"));
    closest_common_dominator(&nodes, &edges, vec!["B", "D"], Some("A"));
    closest_common_dominator(&nodes, &edges, vec!["B", "E"], Some("A"));
    closest_common_dominator(&nodes, &edges, vec!["C", "D"], Some("A"));
    closest_common_dominator(&nodes, &edges, vec!["C", "E"], Some("A"));
    closest_common_dominator(&nodes, &edges, vec!["D", "E"], Some("A"));

    closest_common_dominator(&nodes, &edges, vec!["B", "C", "D"], Some("A"));
    closest_common_dominator(&nodes, &edges, vec!["C", "D", "E"], Some("A"));
}

#[test]
fn test_closest_common_dominator_infinite_loop_trap() {
    // A->B, C->D->C (Trap)
    let nodes = vec!["A", "B", "C", "D"];
    let edges = vec![
        ("A", "B"), // Safe path
        ("C", "D"),
        ("D", "C"), // Trap
    ];

    closest_common_dominator(&nodes, &edges, vec!["A", "C"], None);
    closest_common_dominator(&nodes, &edges, vec!["B", "C"], None);
    closest_common_dominator(&nodes, &edges, vec!["C", "D"], None);
}

#[test]
fn test_closest_common_dominator_self_loop_handling() {
    // A->A (Self loop), A->B
    let nodes = vec!["A", "B"];
    let edges = vec![("A", "A"), ("A", "B")];
    closest_common_dominator(&nodes, &edges, vec!["A"], Some("A"));
}

#[test]
fn test_closest_common_dominator_multi_edge() {
    // Shape: A->B (x2), B->C.
    let nodes = vec!["A", "B", "C"];
    let edges = vec![
        ("A", "B"),
        ("A", "B"), // Duplicate edge
        ("B", "C"),
    ];
    closest_common_dominator(&nodes, &edges, vec!["A"], Some("A"));
}

#[test]
fn test_closest_common_dominator_empty_target_set() {
    // A -> B
    let nodes = vec!["A", "B"];
    let edges = vec![("A", "B")];
    closest_common_dominator(&nodes, &edges, vec![], None);
}

#[test]
fn test_closest_common_dominator_empty_graph() {
    let nodes: Vec<String> = vec![];
    let edges: Vec<(String, String)> = vec![];
    assert_eq!(
        DominatorFinder::new(nodes, edges).err(),
        Some(DominatorFinderError::GraphHasNoEntryNode)
    );
}

#[test]
fn test_closest_common_dominator_repeated_node() {
    // A -> B
    let nodes = vec!["A", "B", "A", "B"];
    let edges = vec![("A", "B")];

    closest_common_dominator(&nodes, &edges, vec!["A"], Some("A"));
    closest_common_dominator(&nodes, &edges, vec!["B"], Some("B"));
    closest_common_dominator(&nodes, &edges, vec!["A", "B"], Some("A"));
}

#[test]
fn test_closest_common_dominator_invalid_edge() {
    let nodes = vec!["A", "B"];
    {
        let edges = vec![("A", "C")];
        let finder = DominatorFinder::new(nodes.clone(), edges);
        assert_eq!(
            finder.err(),
            Some(DominatorFinderError::EdgeContainsUnknownNode)
        );
    }
    {
        let edges = vec![("C", "A")];
        let finder = DominatorFinder::new(nodes.clone(), edges);
        assert_eq!(
            finder.err(),
            Some(DominatorFinderError::EdgeContainsUnknownNode)
        );
    }
    {
        let edges = vec![("C", "D")];
        let finder = DominatorFinder::new(nodes.clone(), edges);
        assert_eq!(
            finder.err(),
            Some(DominatorFinderError::EdgeContainsUnknownNode)
        );
    }
}

#[test]
fn test_closest_common_dominator_invalid_node_in_target() {
    // A -> B
    let nodes = vec!["A", "B"];
    let edges = vec![("A", "B")];

    closest_common_dominator_expect_error(
        &nodes,
        &edges,
        vec!["C"],
        DominatorFinderError::TargetSetContainsUnknownNode,
    );
    closest_common_dominator_expect_error(
        &nodes,
        &edges,
        vec!["A", "C"],
        DominatorFinderError::TargetSetContainsUnknownNode,
    );
    closest_common_dominator_expect_error(
        &nodes,
        &edges,
        vec!["B", "C"],
        DominatorFinderError::TargetSetContainsUnknownNode,
    );
}

#[test]
fn find_closest_common_dominator_in_one_call() {
    // 1 -> 2 -> 4, 1 -> 3 -> 4 -> 5
    let nodes = vec![1, 2, 3, 4, 5];
    let edges = vec![(1, 2), (1, 3), (2, 4), (3, 4), (4, 5)];
    let find = |targets: Vec<u32>| {
        find_closest_common_dominator(nodes.clone(), edges.clone(), targets)
    };
    assert_eq!(find(vec![2, 3]), Ok(Some(1)));
    assert_eq!(find(vec![2, 5]), Ok(Some(1)));
    assert_eq!(find(vec![5, 4]), Ok(Some(4)));
    assert_eq!(find(vec![5]), Ok(Some(5)));
    assert_eq!(find(vec![]), Ok(None));
    assert_eq!(
        find(vec![4, 6]),
        Err(DominatorFinderError::TargetSetContainsUnknownNode)
    );
}

#[test]
fn errors_come_in_a_fixed_order() {
    // An unknown end of an edge comes before a missing entry node.
    assert_eq!(
        find_closest_common_dominator(vec![1, 2], vec![(1, 2), (2, 1), (1, 3)], vec![4]),
        Err(DominatorFinderError::EdgeContainsUnknownNode)
    );
    // A missing entry node comes before an unknown target.
    assert_eq!(
        find_closest_common_dominator(vec![1, 2], vec![(1, 2), (2, 1)], vec![4]),
        Err(DominatorFinderError::GraphHasNoEntryNode)
    );
    // And it is reported even if there are no targets.
    assert_eq!(
        find_closest_common_dominator(Vec::<u8>::new(), vec![], vec![]),
        Err(DominatorFinderError::GraphHasNoEntryNode)
    );
}

#[test]
fn error_messages() {
    assert_eq!(
        DominatorFinderError::EdgeContainsUnknownNode.message(),
        "Invalid input: edge contains unknown node"
    );
    assert_eq!(
        DominatorFinderError::TargetSetContainsUnknownNode.message(),
        "Invalid input: target set contains unknown node"
    );
    assert_eq!(
        DominatorFinderError::GraphHasNoEntryNode.message(),
        "Graph has no entry node"
    );
}

#[test]
fn a_node_is_its_own_closest_dominator() {
    let nodes = vec![1, 2, 3, 4, 5];
    // 4 and 5 form a cycle that no entry node leads to.
    let edges = vec![(1, 2), (2, 3), (3, 2), (4, 5), (5, 4)];
    for n in 1..6 {
        assert_eq!(
            find_closest_common_dominator(nodes.clone(), edges.clone(), vec![n]),
            Ok(Some(n))
        );
        assert_eq!(
            find_closest_common_dominator(nodes.clone(), edges.clone(), vec![n, n]),
            Ok(Some(n))
        );
    }
}

#[test]
fn unreachable_nodes_share_only_the_virtual_entry() {
    let nodes = vec![1, 2, 3];
    let edges = vec![(2, 3), (3, 2)];
    assert_eq!(
        find_closest_common_dominator(nodes.clone(), edges.clone(), vec![2, 3]),
        Ok(None)
    );
    assert_eq!(
        find_closest_common_dominator(nodes, edges, vec![1, 2]),
        Ok(None)
    );
}

#[test]
fn self_loops_do_not_matter() {
    let nodes = vec![1, 2, 3, 4];
    let edges = vec![(1, 2), (1, 3), (3, 4)];
    let mut looped = edges.clone();
    looped.extend([(1, 1), (2, 2), (3, 3), (4, 4)]);
    for a in 1..5 {
        for b in 1..5 {
            assert_eq!(
                find_closest_common_dominator(nodes.clone(), edges.clone(), vec![a, b]),
                find_closest_common_dominator(nodes.clone(), looped.clone(), vec![a, b])
            );
        }
    }
    // A self loop does not keep a node from being an entry node.
    assert_eq!(
        find_closest_common_dominator(vec![1], vec![(1, 1)], vec![1]),
        Ok(Some(1))
    );
}

#[test]
fn order_and_repetition_do_not_matter() {
    let nodes = vec![1, 2, 3, 4];
    let edges = vec![(1, 2), (2, 3), (1, 4), (4, 3)];
    let other_nodes = vec![4, 4, 3, 2, 1, 3];
    let other_edges = vec![(4, 3), (1, 4), (4, 3), (2, 3), (1, 2)];
    for a in 1..5 {
        for b in 1..5 {
            assert_eq!(
                find_closest_common_dominator(nodes.clone(), edges.clone(), vec![a, b]),
                find_closest_common_dominator(other_nodes.clone(), other_edges.clone(), vec![b, a])
            );
        }
    }
}

#[test]
fn acyclic_graphs_have_an_entry_node() {
    let finder = DominatorFinder::new(vec![3, 2, 1], vec![(1, 2), (2, 3), (1, 3)]);
    assert!(finder.is_ok());
}

#[test]
fn the_closest_is_the_lowest_common_ancestor() {
    // Immediate dominators: 2, 3, 5 and 6 below 1, 4 below 3, 7 below 6.
    let nodes = vec![1, 2, 3, 4, 5, 6, 7];
    let edges = vec![
        (1, 2),
        (1, 3),
        (3, 4),
        (2, 5),
        (4, 5),
        (5, 6),
        (1, 6),
        (6, 7),
        (7, 6),
    ];
    let parent = [0, 0, 1, 1, 3, 1, 1, 6];
    let ancestors = |n: usize| {
        let mut list = vec![n];
        let mut n = n;
        while parent[n] != 0 {
            n = parent[n];
            list.push(n);
        }
        list
    };
    let finder = DominatorFinder::new(nodes, edges).unwrap();
    for a in 1..8 {
        for b in 1..8 {
            let above_b = ancestors(b);
            let lowest = ancestors(a).into_iter().find(|n| above_b.contains(n));
            assert_eq!(finder.closest_common_dominator(vec![a, b]), Ok(lowest));
        }
    }
}

#[test]
fn many_passes_are_enough() {
    // A ladder of cycles, with the edges listed against the flow.
    let n: u32 = 40;
    let mut edges = vec![];
    for i in (1..n).rev() {
        edges.push((i + 1, i));
        edges.push((i, i + 1));
    }
    edges.push((0, 1));
    edges.push((0, n));
    let nodes: Vec<u32> = (0..n + 1).collect();
    let finder = DominatorFinder::new(nodes, edges).unwrap();
    for i in 1..n {
        assert_eq!(finder.closest_common_dominator(vec![i, i + 1]), Ok(Some(0)));
    }
}

#[test]
fn closest_common_dominators_step_by_step() {
    let nodes = vec![1, 2, 3, 4, 5, 6];
    let edges = vec![(1, 2), (2, 3), (2, 4), (3, 5), (4, 5), (1, 6)];
    let finder = DominatorFinder::new(nodes, edges).unwrap();
    for a in 1..7 {
        for b in 1..7 {
            for c in 1..7 {
                let first = finder.closest_common_dominator(vec![a, b]).unwrap().unwrap();
                assert_eq!(
                    finder.closest_common_dominator(vec![a, b, c]),
                    finder.closest_common_dominator(vec![first, c])
                );
            }
        }
    }
}

#[test]
fn a_single_entry_dominates_everything() {
    let nodes = vec![1, 2, 3, 4];
    let edges = vec![(1, 2), (2, 3), (3, 2), (1, 4)];
    let finder = DominatorFinder::new(nodes, edges).unwrap();
    for n in 1..5 {
        assert_eq!(finder.closest_common_dominator(vec![1, n]), Ok(Some(1)));
    }
}

#[test]
fn labels_do_not_matter() {
    let edges = vec![(1, 2), (2, 3), (3, 2), (1, 4), (4, 3), (5, 6)];
    let label = |n: &u32| format!("node {n}");
    let finder = DominatorFinder::new(vec![1, 2, 3, 4, 5, 6], edges.clone()).unwrap();
    let labelled = DominatorFinder::new(
        [6, 5, 4, 3, 2, 1].iter().map(label).collect(),
        edges.iter().map(|(a, b)| (label(a), label(b))).collect(),
    )
    .unwrap();
    for a in 1..7 {
        for b in 1..7 {
            let dominator = finder.closest_common_dominator(vec![a, b]).unwrap();
            assert_eq!(
                labelled.closest_common_dominator(vec![label(&a), label(&b)]),
                Ok(dominator.as_ref().map(label))
            );
        }
    }
}
