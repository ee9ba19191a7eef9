use graph_algos::graph::{Edge, GraphList, IndexError, Node};

#[test]
fn graph_test_edge_creation() {
    let edge = Edge::new(1, 2, 3);
    assert_eq!(edge.from, 1);
    assert_eq!(edge.to, 2);
    assert_eq!(edge.weight, 3);
}

#[test]
fn graph_test_node_creation() {
    let node = Node::new(0, Some("A".to_string()));
    assert_eq!(node.index, 0);
    assert_eq!(node.label, Some("A".to_string()));
    assert_eq!(node.num_edges(), 0);
}

#[test]
fn graph_test_node_edge_operations() {
    let mut node = Node::new(0, None);

    node.add_edge(1, 1);
    node.add_edge(2, 2);
    assert_eq!(node.num_edges(), 2);

    assert!(node.get_edge(1).is_some());
    assert!(node.get_edge(3).is_none());

    let edges = node.get_edge_list();
    assert_eq!(edges.len(), 2);

    let ordered_edges = node.get_ordered_edge_list();
    assert_eq!(ordered_edges[0].to, 1);
    assert_eq!(ordered_edges[1].to, 2);

    node.remove_edge(1);
    assert_eq!(node.num_edges(), 1);
}

#[test]
fn graph_test_graph_list_operations() {
    let mut graph = GraphList {
        undirected: false,
        nodes: vec![Node::new(0, None), Node::new(1, None)],
    };

    assert!(graph.insert_edge(0, 1, 1).is_ok());
    assert!(graph.is_edge(0, 1));
    assert!(!graph.is_edge(1, 0));

    assert!(graph.insert_edge(0, 2, 1).is_err());

    assert!(graph.remove_edge(0, 1).is_ok());
    assert!(!graph.is_edge(0, 1));

    let new_node = graph.insert_node(Some("C".to_string()));
    assert_eq!(new_node.index, 2);
    assert_eq!(new_node.label, Some("C".to_string()));
}

#[test]
fn graph_test_undirected_graph() {
    let mut graph = GraphList {
        undirected: true,
        nodes: vec![Node::new(0, None), Node::new(1, None)],
    };

    assert!(graph.insert_edge(0, 1, 1).is_ok());
    assert!(graph.is_edge(0, 1));
    assert!(graph.is_edge(1, 0));

    assert!(graph.remove_edge(0, 1).is_ok());
    assert!(!graph.is_edge(0, 1));
    assert!(!graph.is_edge(1, 0));
}

#[test]
fn main_test_edge_creation() {
    let edge = Edge::new(1, 2, 3);
    assert_eq!(edge.from, 1);
    assert_eq!(edge.to, 2);
    assert_eq!(edge.weight, 3);
}

#[test]
fn main_test_node_creation() {
    let node = Node::new(0, Some("A".to_string()));
    assert_eq!(node.index, 0);
    assert_eq!(node.label, Some("A".to_string()));
    assert_eq!(node.num_edges(), 0);
}

#[test]
fn main_test_node_edge_operations() {
    let mut node = Node::new(0, None);

    node.add_edge(1, 1);
    node.add_edge(2, 2);
    assert_eq!(node.num_edges(), 2);

    assert!(node.get_edge(1).is_some());
    assert!(node.get_edge(3).is_none());

    let edges = node.get_edge_list();
    assert_eq!(edges.len(), 2);

    let ordered_edges = node.get_ordered_edge_list();
    assert_eq!(ordered_edges[0].to, 1);
    assert_eq!(ordered_edges[1].to, 2);

    node.remove_edge(1);
    assert_eq!(node.num_edges(), 1);
}

#[test]
fn main_test_graph_list_operations() {
    let mut graph = GraphList {
        undirected: false,
        nodes: vec![Node::new(0, None), Node::new(1, None)],
    };

    assert!(graph.insert_edge(0, 1, 1).is_ok());
    assert!(graph.is_edge(0, 1));
    assert!(!graph.is_edge(1, 0));

    assert!(graph.insert_edge(0, 2, 1).is_err());

    assert!(graph.remove_edge(0, 1).is_ok());
    assert!(!graph.is_edge(0, 1));

    let new_node = graph.insert_node(Some("C".to_string()));
    assert_eq!(new_node.index, 2);
    assert_eq!(new_node.label, Some("C".to_string()));
}

#[test]
fn main_test_undirected_graph() {
    let mut graph = GraphList {
        undirected: true,
        nodes: vec![Node::new(0, None), Node::new(1, None)],
    };

    assert!(graph.insert_edge(0, 1, 1).is_ok());
    assert!(graph.is_edge(0, 1));
    assert!(graph.is_edge(1, 0));

    assert!(graph.remove_edge(0, 1).is_ok());
    assert!(!graph.is_edge(0, 1));
    assert!(!graph.is_edge(1, 0));
}

#[test]
fn overwriting_an_edge_keeps_the_last_weight() {
    let mut graph = GraphList {
        undirected: false,
        nodes: vec![Node::new(0, None), Node::new(1, None)],
    };
    graph.insert_edge(0, 1, 5).unwrap();
    graph.insert_edge(0, 1, 2).unwrap();
    assert_eq!(graph.get_edge(0, 1), Ok(Some(Edge::new(0, 1, 2))));
    assert_eq!(graph.nodes[0].num_edges(), 1);
}

#[test]
fn index_errors_name_the_offending_indices() {
    let mut graph = GraphList {
        undirected: true,
        nodes: vec![Node::new(0, None), Node::new(1, None)],
    };
    assert_eq!(graph.get_edge(2, 0), Err(IndexError { from: 2, to: 0 }));
    assert_eq!(graph.insert_edge(0, 7, 1), Err(IndexError { from: 0, to: 7 }));
    assert_eq!(graph.remove_edge(5, 1), Err(IndexError { from: 5, to: 1 }));
    assert!(!graph.is_edge(0, 9));
    assert_eq!(graph.get_edge(0, 1), Ok(None));
}

#[test]
fn undirected_insertion_mirrors_weight_and_removal_of_absent_edge_is_ok() {
    let mut graph = GraphList {
        undirected: true,
        nodes: vec![Node::new(0, None), Node::new(1, None), Node::new(2, None)],
    };
    graph.insert_edge(2, 0, -4).unwrap();
    assert_eq!(graph.get_edge(0, 2), Ok(Some(Edge::new(0, 2, -4))));
    assert_eq!(graph.get_edge(2, 0), Ok(Some(Edge::new(2, 0, -4))));
    assert!(graph.remove_edge(1, 2).is_ok());
    assert!(graph.is_edge(0, 2));
}

#[test]
fn ordered_edge_list_is_ascending_by_neighbor() {
    let mut graph = GraphList {
        undirected: false,
        nodes: vec![Node::new(0, None), Node::new(1, None), Node::new(2, None), Node::new(3, None)],
    };
    graph.insert_edge(0, 3, 1).unwrap();
    graph.insert_edge(0, 1, 2).unwrap();
    graph.insert_edge(0, 2, 3).unwrap();
    let tos: Vec<usize> = graph.nodes[0].get_ordered_edge_list().iter().map(|e| e.to).collect();
    assert_eq!(tos, vec![1, 2, 3]);
    let all = graph.make_edge_list();
    assert_eq!(all.len(), 3);
    assert_eq!(all[0], Edge::new(0, 1, 2));
}
