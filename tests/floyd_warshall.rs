use graph_algos::floyd_warshall::floyd_warshall;
use graph_algos::graph::{GraphList, Node};

fn path(last: &Vec<Vec<isize>>, i: usize, j: usize) -> Vec<usize> {
    let mut p = vec![j];
    let mut cur = j;
    while cur != i {
        cur = last[i][cur] as usize;
        p.push(cur);
    }
    p.reverse();
    p
}

#[test]
fn floyd_warshall_reconstructs_cheapest_paths() {
    let mut graph = GraphList {
        undirected: false,
        nodes: (0..4).map(|i| Node::new(i, None)).collect(),
    };
    graph.insert_edge(0, 1, 4).unwrap();
    graph.insert_edge(0, 2, 1).unwrap();
    graph.insert_edge(1, 3, 1).unwrap();
    graph.insert_edge(2, 1, 2).unwrap();
    graph.insert_edge(2, 3, 5).unwrap();
    let last = floyd_warshall(&graph);
    assert_eq!(last[0], vec![-1, 2, 0, 1]);
    assert_eq!(last[3], vec![-1, -1, -1, -1]);
    let p = path(&last, 0, 3);
    assert_eq!(p, vec![0, 2, 1, 3]);
    let cost: i32 = p.windows(2).map(|w| graph.get_edge(w[0], w[1]).unwrap().unwrap().weight).sum();
    assert_eq!(cost, 4);
}

#[test]
fn floyd_warshall_on_empty_and_single_graphs() {
    let graph = GraphList { undirected: false, nodes: vec![] };
    assert!(floyd_warshall(&graph).is_empty());
    let graph = GraphList { undirected: false, nodes: vec![Node::new(0, None)] };
    assert_eq!(floyd_warshall(&graph), vec![vec![-1]]);
}

#[test]
fn floyd_warshall_with_negative_edge() {
    let mut graph = GraphList {
        undirected: false,
        nodes: (0..3).map(|i| Node::new(i, None)).collect(),
    };
    graph.insert_edge(0, 1, 4).unwrap();
    graph.insert_edge(0, 2, 5).unwrap();
    graph.insert_edge(2, 1, -2).unwrap();
    let last = floyd_warshall(&graph);
    assert_eq!(last[0], vec![-1, 2, 0]);
    assert_eq!(path(&last, 0, 1), vec![0, 2, 1]);
}
