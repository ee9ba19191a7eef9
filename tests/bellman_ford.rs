use graph_algos::cost::Cost;
use graph_algos::graph::{GraphList, Node};
use graph_algos::bellman_ford::bellman_ford;
use graph_algos::dijkstra::dijkstra;

// Helper function to create a basic test graph
fn create_basic_graph() -> GraphList {
    let mut graph = GraphList {
        undirected: false,
        nodes: vec![
            Node::new(0, None),
            Node::new(1, None),
            Node::new(2, None),
            Node::new(3, None),
        ],
    };

    graph.insert_edge(0, 1, 4).unwrap();
    graph.insert_edge(0, 2, 1).unwrap();
    graph.insert_edge(1, 3, 1).unwrap();
    graph.insert_edge(2, 1, 2).unwrap();
    graph.insert_edge(2, 3, 5).unwrap();
    graph
}

#[test]
fn test_basic_shortest_paths() {
    let graph = create_basic_graph();
    let result = bellman_ford(&graph, 0).unwrap();

    assert_eq!(
        result,
        vec![
            Cost::Finite(0), // Start node
            Cost::Finite(3), // 0->2->1 (1+2)
            Cost::Finite(1), // 0->2
            Cost::Finite(4)  // 0->2->1->3 (1+2+1)
        ]
    );
}

#[test]
fn test_negative_weights_no_cycle() {
    let mut graph = GraphList {
        undirected: false,
        nodes: vec![Node::new(0, None), Node::new(1, None), Node::new(2, None)],
    };

    graph.insert_edge(0, 1, 4).unwrap();
    graph.insert_edge(0, 2, 5).unwrap();
    graph.insert_edge(2, 1, -2).unwrap();

    let result = bellman_ford(&graph, 0).unwrap();
    assert_eq!(
        result,
        vec![
            Cost::Finite(0),
            Cost::Finite(3), // 0->2->1 (5-2)
            Cost::Finite(5)
        ]
    );
}

#[test]
fn test_negative_cycle_detection() {
    let mut graph = GraphList {
        undirected: false,
        nodes: vec![Node::new(0, None), Node::new(1, None), Node::new(2, None)],
    };

    // Total cycle weight: 1 + 1 - 3 = -1
    graph.insert_edge(0, 1, 1).unwrap();
    graph.insert_edge(1, 2, 1).unwrap();
    graph.insert_edge(2, 0, -3).unwrap();

    assert!(bellman_ford(&graph, 0).is_none());
}

#[test]
fn bellman_ford_test_disconnected_nodes() {
    let mut graph = create_basic_graph();
    graph.insert_node(None); // Node 4

    let result = bellman_ford(&graph, 0).unwrap();
    assert_eq!(result[4], Cost::Infinite);
}

#[test]
fn bellman_ford_test_single_node_graph() {
    let graph = GraphList {
        undirected: false,
        nodes: vec![Node::new(0, None)],
    };

    let result = bellman_ford(&graph, 0).unwrap();
    assert_eq!(result, vec![Cost::Finite(0)]);
}

#[test]
fn test_start_node_in_negative_cycle() {
    let mut graph = GraphList {
        undirected: false,
        nodes: vec![Node::new(0, None), Node::new(1, None)],
    };

    // Negative cycle: 0->1->0 with total weight -2
    graph.insert_edge(0, 1, -1).unwrap();
    graph.insert_edge(1, 0, -1).unwrap();

    assert!(bellman_ford(&graph, 0).is_none());
}

#[test]
fn test_multiple_negative_edges() {
    let mut graph = GraphList {
        undirected: false,
        nodes: vec![Node::new(0, None), Node::new(1, None), Node::new(2, None)],
    };

    graph.insert_edge(0, 1, -2).unwrap();
    graph.insert_edge(1, 2, -3).unwrap();

    let result = bellman_ford(&graph, 0).unwrap();
    assert_eq!(
        result,
        vec![Cost::Finite(0), Cost::Finite(-2), Cost::Finite(-5)]
    );
}

#[test]
fn test_zero_weight_cycle() {
    let mut graph = GraphList {
        undirected: false,
        nodes: vec![Node::new(0, None), Node::new(1, None), Node::new(2, None)],
    };

    // Total cycle weight: 2 + 3 - 5 = 0
    graph.insert_edge(0, 1, 2).unwrap();
    graph.insert_edge(1, 2, 3).unwrap();
    graph.insert_edge(2, 0, -5).unwrap();

    let result = bellman_ford(&graph, 0).unwrap();
    assert_eq!(result[2], Cost::Finite(5)); // 0->1->2 (2+3)
}

#[test]
fn test_start_node_unreachable() {
    let mut graph = GraphList {
        undirected: false,
        nodes: vec![Node::new(0, None), Node::new(1, None)],
    };

    graph.insert_edge(1, 0, 1).unwrap(); // Edge from 1 to 0

    let result = bellman_ford(&graph, 0).unwrap();
    assert_eq!(result, vec![Cost::Finite(0), Cost::Infinite]);
}

#[test]
fn bellman_ford_and_dijkstra_agree_on_non_negative_weights() {
    let graph = create_basic_graph();
    let expected = vec![Cost::Finite(0), Cost::Finite(3), Cost::Finite(1), Cost::Finite(4)];
    assert_eq!(bellman_ford(&graph, 0), Some(expected.clone()));
    assert_eq!(dijkstra(&graph, 0), expected);
}

#[test]
fn negative_cycle_unreachable_from_start_is_ignored() {
    let mut graph = GraphList {
        undirected: false,
        nodes: (0..3).map(|i| Node::new(i, None)).collect(),
    };
    graph.insert_edge(1, 2, -1).unwrap();
    graph.insert_edge(2, 1, -1).unwrap();
    assert_eq!(
        bellman_ford(&graph, 0),
        Some(vec![Cost::Finite(0), Cost::Infinite, Cost::Infinite])
    );
}

#[test]
fn negative_self_loop_is_a_negative_cycle() {
    let mut graph = GraphList {
        undirected: false,
        nodes: vec![Node::new(0, None)],
    };
    graph.insert_edge(0, 0, -1).unwrap();
    assert!(bellman_ford(&graph, 0).is_none());
}

#[test]
fn bellman_ford_with_extreme_weights() {
    let mut graph = GraphList {
        undirected: false,
        nodes: (0..3).map(|i| Node::new(i, None)).collect(),
    };
    graph.insert_edge(0, 1, i32::MAX).unwrap();
    graph.insert_edge(1, 2, i32::MAX).unwrap();
    let expected = 2 * (i32::MAX as i128);
    assert_eq!(
        bellman_ford(&graph, 0),
        Some(vec![Cost::Finite(0), Cost::Finite(i32::MAX as i128), Cost::Finite(expected)])
    );
}
