use graph_algos::cost::Cost;
use graph_algos::graph::{GraphList, Node};
use graph_algos::dijkstra::dijkstra;

fn create_weighted_graph() -> GraphList {
    let mut graph = GraphList {
        undirected: false,
        nodes: vec![
            Node::new(0, None),
            Node::new(1, None),
            Node::new(2, None),
            Node::new(3, None),
            Node::new(4, None),
        ],
    };

    // Directed weighted edges
    graph.insert_edge(0, 1, 4).unwrap();
    graph.insert_edge(0, 2, 1).unwrap();
    graph.insert_edge(1, 3, 1).unwrap();
    graph.insert_edge(2, 1, 2).unwrap();
    graph.insert_edge(2, 3, 5).unwrap();
    graph.insert_edge(3, 4, 3).unwrap();
    graph
}

#[test]
fn test_shortest_paths_from_source() {
    let graph = create_weighted_graph();
    let distances = dijkstra(&graph, 0);

    assert_eq!(
        distances,
        vec![
            Cost::Finite(0), // 0 to 0
            Cost::Finite(3), // 0->2->1 (1+2)
            Cost::Finite(1), // 0->2
            Cost::Finite(4), // 0->2->1->3 (1+2+1)
            Cost::Finite(7)  // 0->2->1->3->4 (1+2+1+3)
        ]
    );
}

#[test]
fn dijkstra_test_disconnected_nodes() {
    let mut graph = create_weighted_graph();
    // Add disconnected node
    graph.insert_node(None);

    let distances = dijkstra(&graph, 0);
    assert_eq!(distances[5], Cost::Infinite);
}

#[test]
fn test_all_nodes_unreachable() {
    let graph = GraphList {
        undirected: false,
        nodes: vec![Node::new(0, None), Node::new(1, None)],
    };
    // No edges added

    let distances = dijkstra(&graph, 0);
    assert_eq!(
        distances,
        vec![Cost::Finite(0), Cost::Infinite]
    );
}

#[test]
fn test_multiple_shortest_paths() {
    let mut graph = GraphList {
        undirected: false,
        nodes: vec![
            Node::new(0, None),
            Node::new(1, None),
            Node::new(2, None),
            Node::new(3, None),
        ],
    };

    graph.insert_edge(0, 1, 3).unwrap();
    graph.insert_edge(0, 2, 2).unwrap();
    graph.insert_edge(1, 3, 1).unwrap();
    graph.insert_edge(2, 3, 2).unwrap();

    let distances = dijkstra(&graph, 0);
    assert_eq!(distances[3], Cost::Finite(4)); // Both paths equal weight
}

#[test]
fn dijkstra_test_single_node_graph() {
    let graph = GraphList {
        undirected: false,
        nodes: vec![Node::new(0, None)],
    };

    let distances = dijkstra(&graph, 0);
    assert_eq!(distances, vec![Cost::Finite(0)]);
}

#[test]
fn test_cycle_handling() {
    let mut graph = GraphList {
        undirected: false,
        nodes: vec![Node::new(0, None), Node::new(1, None), Node::new(2, None)],
    };

    graph.insert_edge(0, 1, 1).unwrap();
    graph.insert_edge(1, 2, 1).unwrap();
    graph.insert_edge(2, 0, 1).unwrap();

    let distances = dijkstra(&graph, 0);
    assert_eq!(
        distances,
        vec![
            Cost::Finite(0),
            Cost::Finite(1),
            Cost::Finite(2) // 0->1->2
        ]
    );
}

#[test]
fn test_duplicate_edges() {
    let mut graph = GraphList {
        undirected: false,
        nodes: vec![Node::new(0, None), Node::new(1, None)],
    };

    graph.insert_edge(0, 1, 5).unwrap();
    graph.insert_edge(0, 1, 2).unwrap(); // Lower weight

    let distances = dijkstra(&graph, 0);
    assert_eq!(distances[1], Cost::Finite(2));
}

#[test]
fn dijkstra_start_is_zero_even_with_a_cycle_back_to_it() {
    let mut graph = GraphList {
        undirected: true,
        nodes: (0..3).map(|i| Node::new(i, None)).collect(),
    };
    graph.insert_edge(0, 1, 2).unwrap();
    graph.insert_edge(1, 2, 2).unwrap();
    assert_eq!(dijkstra(&graph, 2), vec![Cost::Finite(4), Cost::Finite(2), Cost::Finite(0)]);
}
