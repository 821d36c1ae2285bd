use graph_explorer::loader::{
    load_directed_tolerant, load_symmetric_strict, load_symmetric_tolerant,
    parse_edge_lines_strict, ParseError,
};
use graph_explorer::paths::single_source_distances;
use graph_explorer::random::{filter_edges_by_nodes, sample_graph, unique_nodes_of};
use graph_explorer::random::preprocess_with_sampling;
use graph_explorer::route::shortest_path;
use graph_explorer::sample::{generate_edge_list, sample_connected_nodes, top_n_by_key_order};
use graph_explorer::traverse::bfs;

fn lines(data: &[&str]) -> Vec<Vec<u8>> {
    data.iter().map(|s| s.as_bytes().to_vec()).collect()
}

#[test]
fn bfs_visits_component_in_discovery_order() {
    let g = load_symmetric_tolerant(&lines(&["1 2", "2 3", "3 1", "2 4"]));
    assert_eq!(bfs(&g, 1), vec![1, 2, 3, 4]);
}

#[test]
fn bfs_of_absent_start_is_the_start_alone() {
    let g = load_symmetric_tolerant(&lines(&["1 2"]));
    assert_eq!(bfs(&g, 99), vec![99]);
}

#[test]
fn distances_of_small_graph_are_exact() {
    let g = load_symmetric_tolerant(&lines(&["1 2", "2 3", "3 1", "2 4"]));
    let dm = single_source_distances(&g, 1);
    assert_eq!(dm.lookup(1), Some(Some(0)));
    assert_eq!(dm.lookup(2), Some(Some(1)));
    assert_eq!(dm.lookup(3), Some(Some(1)));
    assert_eq!(dm.lookup(4), Some(Some(2)));
    // entries are keyed in first-appearance order
    assert_eq!(dm.len(), 4);
    assert_eq!(dm.entry_at(0), (1, Some(0)));
    assert_eq!(dm.entry_at(3), (4, Some(2)));
}

#[test]
fn unreachable_nodes_keep_the_sentinel() {
    let g = load_symmetric_tolerant(&lines(&["1 2", "3 4"]));
    let dm = single_source_distances(&g, 1);
    assert_eq!(dm.lookup(3), Some(None));
    assert_eq!(dm.lookup(4), Some(None));
    assert_eq!(dm.lookup(99), None);
}

#[test]
fn distances_of_unknown_start_are_the_empty_mapping() {
    let g = load_symmetric_tolerant(&lines(&["1 2"]));
    let dm = single_source_distances(&g, 99);
    assert_eq!(dm.len(), 0);
}

#[test]
fn shortest_path_of_small_graph() {
    let g = load_symmetric_tolerant(&lines(&["1 2", "2 3", "3 1", "2 4"]));
    assert_eq!(shortest_path(&g, 1, 4), vec![1, 2, 4]);
}

#[test]
fn shortest_path_node_count_is_the_distance_plus_one() {
    let g = load_symmetric_tolerant(&lines(&["1 2", "2 3", "3 1", "2 4", "4 5"]));
    let dm = single_source_distances(&g, 1);
    for target in [2, 3, 4, 5] {
        let d = dm.lookup(target).unwrap().unwrap();
        assert_eq!(shortest_path(&g, 1, target).len(), d + 1);
    }
}

#[test]
fn shortest_path_to_unreachable_node_is_empty() {
    let g = load_symmetric_tolerant(&lines(&["1 2", "3 4"]));
    assert_eq!(shortest_path(&g, 1, 3), Vec::<usize>::new());
}

#[test]
fn shortest_path_to_the_start_itself() {
    let g = load_symmetric_tolerant(&lines(&["1 2"]));
    assert_eq!(shortest_path(&g, 1, 1), vec![1]);
}

#[test]
fn tolerant_loading_skips_a_header_line() {
    let g = load_symmetric_tolerant(&lines(&["1 2", "header line here", "2 3"]));
    assert_eq!(g.len(), 3);
    assert_eq!(g.get(1).unwrap(), &vec![2]);
    assert_eq!(g.get(2).unwrap(), &vec![1, 3]);
    assert_eq!(g.get(3).unwrap(), &vec![2]);
}

#[test]
fn strict_loading_fails_on_the_first_bad_token() {
    match load_symmetric_strict(&lines(&["1 2", "x y", "2 3"])) {
        Err(e) => assert_eq!(e, ParseError { line: 1 }),
        Ok(_) => panic!("a line with unparsable tokens must fail the strict load"),
    }
}

#[test]
fn strict_loading_accepts_skippable_lines() {
    let g = load_symmetric_strict(&lines(&["1 2", "header line here", "2 3"]))
        .expect("only a bad two-token line fails the strict load");
    assert_eq!(g.len(), 3);
}

#[test]
fn an_overflowing_node_id_is_a_bad_token() {
    let huge = "1 99999999999999999999999999";
    match load_symmetric_strict(&lines(&[huge])) {
        Err(e) => assert_eq!(e, ParseError { line: 0 }),
        Ok(_) => panic!("an id beyond the machine range must fail the strict load"),
    }
    let g = load_symmetric_tolerant(&lines(&[huge]));
    assert_eq!(g.len(), 0);
}

#[test]
fn directed_loading_records_one_direction_and_the_target_entry() {
    let g = load_directed_tolerant(&lines(&["# a leading comment", "0 1", "1 2"]));
    assert_eq!(g.len(), 3);
    assert_eq!(g.get(0).unwrap(), &vec![1]);
    assert_eq!(g.get(1).unwrap(), &vec![2]);
    assert_eq!(g.get(2).unwrap(), &Vec::<usize>::new());
}

#[test]
fn parse_edge_lines_keeps_line_order() {
    let r = parse_edge_lines_strict(&lines(&["1 2", "skip this line", "2 3"]));
    assert_eq!(r, Ok(vec![(1, 2), (2, 3)]));
}

#[test]
fn connected_sample_with_zero_budget_keeps_the_seed() {
    let g = load_symmetric_tolerant(&lines(&["1 2", "2 3"]));
    assert_eq!(sample_connected_nodes(&g, 1, 0), vec![1]);
}

#[test]
fn connected_sample_under_budget_is_the_whole_component() {
    let g = load_symmetric_tolerant(&lines(&["1 2", "2 3", "4 5"]));
    let sampled = sample_connected_nodes(&g, 1, 10);
    assert_eq!(sampled.len(), 3);
    assert!(sampled.contains(&1) && sampled.contains(&2) && sampled.contains(&3));
    assert!(!sampled.contains(&4));
}

#[test]
fn connected_sample_takes_the_first_neighbor_in_adjacency_order() {
    // adjacency fixed explicitly: 1 -> [2, 3], so a budget of 2 keeps {1, 2}
    let g = load_symmetric_tolerant(&lines(&["1 2", "1 3", "2 3"]));
    assert_eq!(g.get(1).unwrap(), &vec![2, 3]);
    let sampled = sample_connected_nodes(&g, 1, 2);
    assert_eq!(sampled, vec![1, 2]);
}

#[test]
fn induced_edges_of_a_full_sample_are_all_edges() {
    let g = load_symmetric_tolerant(&lines(&["1 2", "2 3"]));
    let all: Vec<usize> = vec![1, 2, 3];
    let edges = generate_edge_list(&g, &all);
    assert_eq!(edges, vec![(1, 2), (2, 1), (2, 3), (3, 2)]);
}

#[test]
fn induced_edges_keep_both_stored_directions() {
    let g = load_symmetric_tolerant(&lines(&["1 2", "2 3"]));
    let sampled: Vec<usize> = vec![2, 3];
    assert_eq!(generate_edge_list(&g, &sampled), vec![(2, 3), (3, 2)]);
}

#[test]
fn top_n_keeps_the_first_keys_and_forces_node_zero() {
    let g = load_symmetric_tolerant(&lines(&["5 6", "7 8", "0 9"]));
    let sub = top_n_by_key_order(&g, 2);
    assert_eq!(sub.len(), 3);
    assert_eq!(sub.get(5).unwrap(), &vec![6]);
    assert_eq!(sub.get(6).unwrap(), &vec![5]);
    assert_eq!(sub.get(0).unwrap(), &vec![9]);
    // the copied neighbor list may point outside the kept keys
    assert!(sub.get(9).is_none());
}

#[test]
fn top_n_without_node_zero_keeps_only_the_prefix() {
    let g = load_symmetric_tolerant(&lines(&["5 6", "7 8"]));
    let sub = top_n_by_key_order(&g, 3);
    assert_eq!(sub.len(), 3);
    assert!(sub.get(8).is_none());
}

#[test]
fn unique_nodes_are_deduplicated_in_first_appearance_order() {
    let edges = vec![(1, 2), (2, 3), (3, 1)];
    assert_eq!(unique_nodes_of(&edges), vec![1, 2, 3]);
}

#[test]
fn filtering_edges_keeps_those_inside_the_node_set() {
    let edges = vec![(1, 2), (2, 3), (3, 1)];
    let nodes: Vec<usize> = vec![1, 2];
    assert_eq!(filter_edges_by_nodes(&edges, &nodes), vec![(1, 2)]);
}

#[test]
fn random_sample_with_full_budget_keeps_every_edge() {
    let edges = vec![(1, 2), (2, 3), (3, 1)];
    assert_eq!(sample_graph(&edges, 3), edges);
}

#[test]
fn random_sample_with_zero_budget_keeps_no_edge() {
    let edges = vec![(1, 2), (2, 3), (3, 1)];
    assert_eq!(sample_graph(&edges, 0), Vec::<(usize, usize)>::new());
}

#[test]
fn random_sample_of_a_triangle_with_two_nodes_keeps_one_edge() {
    // whatever two of the three nodes are drawn, exactly one stored edge survives
    let edges = vec![(1, 2), (2, 3), (3, 1)];
    assert_eq!(sample_graph(&edges, 2).len(), 1);
}

#[test]
fn preprocessing_with_a_large_budget_keeps_every_entry() {
    let sub = preprocess_with_sampling(&lines(&["# c", "0 1", "1 2", "x y"]), 10);
    assert_eq!(sub.len(), 3);
    assert_eq!(sub.get(0).unwrap(), &vec![1]);
    assert_eq!(sub.get(1).unwrap(), &vec![2]);
    assert_eq!(sub.get(2).unwrap(), &Vec::<usize>::new());
}

#[test]
fn preprocessing_respects_the_budget() {
    let sub = preprocess_with_sampling(&lines(&["0 1", "1 2", "2 3"]), 2);
    assert_eq!(sub.len(), 2);
    let none = preprocess_with_sampling(&lines(&["0 1", "1 2", "2 3"]), 0);
    assert_eq!(none.len(), 0);
}
