use graph_algos::dfs::{dfs, dfs_all, dfs_connected_componentes, dfs_recursive, dfs_stack};
use graph_algos::graph::{GraphList, Node};

#[test]
fn dfs_test_dfs_functions() {
    let mut graph = GraphList {
        undirected: false,
        nodes: vec![Node::new(0, None), Node::new(1, None), Node::new(2, None)],
    };
    graph.insert_edge(0, 1, 1).unwrap();
    graph.insert_edge(1, 2, 1).unwrap();

    let mut seen = vec![false; graph.num_nodes()];
    dfs_recursive(&graph, 0, &mut seen);
    assert!(seen[0]);
    assert!(seen[1]);
    assert!(seen[2]);

    let last = dfs_stack(&graph, 0);
    assert_eq!(last, vec![-1, 0, 1]);

    let components = dfs_connected_componentes(&graph);
    assert_eq!(components, vec![0, 0, 0]);

    graph.insert_node(None);
    let components = dfs_connected_componentes(&graph);
    assert_eq!(components, vec![0, 0, 0, 1]);
}

#[test]
fn dfs_test_empty_graph() {
    let graph = GraphList {
        undirected: false,
        nodes: vec![],
    };

    assert_eq!(graph.num_nodes(), 0);
    assert!(graph.get_edge(0, 1).is_err());

    let components = dfs_connected_componentes(&graph);
    assert!(components.is_empty());
}

#[test]
fn dfs_test_single_node_graph() {
    let mut graph = GraphList {
        undirected: false,
        nodes: vec![Node::new(0, Some("A".to_string()))],
    };

    assert_eq!(graph.num_nodes(), 1);
    assert!(!graph.is_edge(0, 0));

    graph.insert_edge(0, 0, 1).unwrap();
    assert!(graph.is_edge(0, 0));

    let components = dfs_connected_componentes(&graph);
    assert_eq!(components, vec![0]);
}

#[test]
fn main_test_dfs_functions() {
    let mut graph = GraphList {
        undirected: false,
        nodes: vec![Node::new(0, None), Node::new(1, None), Node::new(2, None)],
    };
    graph.insert_edge(0, 1, 1).unwrap();
    graph.insert_edge(1, 2, 1).unwrap();

    let mut seen = vec![false; graph.num_nodes()];
    dfs_recursive(&graph, 0, &mut seen);
    assert!(seen[0]);
    assert!(seen[1]);
    assert!(seen[2]);

    let last = dfs_stack(&graph, 0);
    assert_eq!(last, vec![-1, 0, 1]);

    let components = dfs_connected_componentes(&graph);
    assert_eq!(components, vec![0, 0, 0]);

    graph.insert_node(None);
    let components = dfs_connected_componentes(&graph);
    assert_eq!(components, vec![0, 0, 0, 1]);
}

#[test]
fn main_test_empty_graph() {
    let graph = GraphList {
        undirected: false,
        nodes: vec![],
    };

    assert_eq!(graph.num_nodes(), 0);
    assert!(graph.get_edge(0, 1).is_err());

    let components = dfs_connected_componentes(&graph);
    assert!(components.is_empty());
}

#[test]
fn main_test_single_node_graph() {
    let mut graph = GraphList {
        undirected: false,
        nodes: vec![Node::new(0, Some("A".to_string()))],
    };

    assert_eq!(graph.num_nodes(), 1);
    assert!(!graph.is_edge(0, 0));

    graph.insert_edge(0, 0, 1).unwrap();
    assert!(graph.is_edge(0, 0));

    let components = dfs_connected_componentes(&graph);
    assert_eq!(components, vec![0]);
}

#[test]
fn dfs_stack_fixes_predecessor_at_first_push() {
    let mut graph = GraphList {
        undirected: false,
        nodes: vec![Node::new(0, None), Node::new(1, None), Node::new(2, None), Node::new(3, None)],
    };
    graph.insert_edge(0, 1, 1).unwrap();
    graph.insert_edge(0, 2, 1).unwrap();
    graph.insert_edge(1, 2, 1).unwrap();
    assert_eq!(dfs_stack(&graph, 0), vec![-1, 0, 0, -1]);
    dfs(&graph, 0);
    dfs_all(&graph);
}

#[test]
fn components_of_an_undirected_graph() {
    let mut graph = GraphList {
        undirected: true,
        nodes: (0..6).map(|i| Node::new(i, None)).collect(),
    };
    graph.insert_edge(0, 3, 1).unwrap();
    graph.insert_edge(4, 1, 1).unwrap();
    graph.insert_edge(5, 4, 1).unwrap();
    assert_eq!(dfs_connected_componentes(&graph), vec![0, 1, 2, 0, 1, 1]);
}

#[test]
fn components_of_a_directed_graph_follow_edge_direction() {
    let mut graph = GraphList {
        undirected: false,
        nodes: (0..3).map(|i| Node::new(i, None)).collect(),
    };
    graph.insert_edge(1, 0, 1).unwrap();
    graph.insert_edge(1, 2, 1).unwrap();
    assert_eq!(dfs_connected_componentes(&graph), vec![0, 1, 1]);
}
