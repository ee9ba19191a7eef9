pub mod graph;
pub mod paths;
pub mod bfs;
pub mod dfs;
pub mod cost;
pub mod bellman_ford;
pub mod dijkstra;
pub mod floyd_warshall;
