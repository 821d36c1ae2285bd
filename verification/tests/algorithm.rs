use graph_explorer::Graph;
use graph_explorer::loader::load_symmetric_tolerant;
use graph_explorer::sample::{generate_edge_list, sample_connected_nodes};
use graph_explorer::traverse::bfs;

fn load_graph_from_data(data: &[&str]) -> Graph {
    let lines: Vec<Vec<u8>> = data.iter().map(|s| s.as_bytes().to_vec()).collect();
    load_symmetric_tolerant(&lines)
}

fn graph_from_adjacency(entries: &[(usize, &[usize])]) -> Graph {
    let mut g = Graph::new();
    for (u, vs) in entries {
        g.ensure_node(*u);
        for v in *vs {
            g.add_neighbor(*u, *v);
        }
    }
    g
}

#[test]
fn test_load_graph() {
    let graph_data = vec!["1 2", "2 3", "3 1"];

    let graph = load_graph_from_data(&graph_data);

    assert!(graph.get(1).unwrap().contains(&2));
    assert!(graph.get(1).unwrap().contains(&3));
    assert!(graph.get(2).unwrap().contains(&1));
    assert!(graph.get(2).unwrap().contains(&3));
    assert!(graph.get(3).unwrap().contains(&1));
    assert!(graph.get(3).unwrap().contains(&2));
}

#[test]
fn test_sample_connected_nodes() {
    let graph = graph_from_adjacency(&[(1, &[2, 3]), (2, &[1, 3]), (3, &[1, 2])]);

    let sampled_nodes = sample_connected_nodes(&graph, 1, 2);

    assert_eq!(sampled_nodes.len(), 2);
    assert!(sampled_nodes.contains(&1));
    assert!(sampled_nodes.contains(&2));
}

#[test]
fn test_generate_edge_list() {
    let graph = graph_from_adjacency(&[(1, &[2, 3]), (2, &[1, 3]), (3, &[1, 2])]);

    let sampled_nodes: Vec<usize> = vec![1, 2];
    let edge_list = generate_edge_list(&graph, &sampled_nodes);

    assert!(edge_list.contains(&(1, 2)));
    assert!(edge_list.contains(&(2, 1)));
    assert_eq!(edge_list.len(), 2);
}

#[test]
fn test_bfs() {
    let graph = graph_from_adjacency(&[(1, &[2, 3]), (2, &[1, 3]), (3, &[1, 2])]);

    let bfs_result = bfs(&graph, 1);

    assert_eq!(bfs_result, vec![1, 2, 3]);
}
