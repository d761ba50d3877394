use higgs_graph::bfs::higgs_bfs;
use higgs_graph::graph::{Edge, Graph};
use higgs_graph::layers::{average_interactions_per_layer, find_layers, layer_map_count};
use higgs_graph::ranker::{most_tweets, top_k, top_ten_influencers};
use higgs_graph::temporal::{convert_timestamp, find_first_timestamp, find_last_timestamp};

fn add(g: &mut Graph, s: usize, t: usize, ts: u64, kind: &str) {
    g.add_edge(s, Edge::new(t, ts, kind.to_string()));
}

/// A small interaction graph: 4 is the only root (it sources edges and is
/// never a target); layers are 4 -> {1, 5} -> {2, 3}; 7 and 8 form a cycle
/// unreachable from the root.
fn small_graph() -> Graph {
    let mut g = Graph::new();
    add(&mut g, 1, 2, 100, "MT");
    add(&mut g, 1, 3, 50, "RT");
    add(&mut g, 2, 3, 150, "RE");
    add(&mut g, 4, 1, 200, "MT");
    add(&mut g, 4, 5, 120, "XX");
    add(&mut g, 7, 8, 300, "MT");
    add(&mut g, 8, 7, 310, "MT");
    g
}

#[test]
fn test_first_timestamp() {
    let mut g = Graph::new();
    add(&mut g, 1, 2, 1341100972, "MT");
    add(&mut g, 2, 3, 1341200000, "RT");
    let (sender, receiver, rendered, kind) = find_first_timestamp(&g).expect("graph has edges");
    assert_eq!(sender, 1);
    assert_eq!(receiver, 2);
    assert_eq!(rendered, "2012-07-01 00:02:52.000000000", "This is not the first timestamp");
    assert_eq!(kind, "MT");
}

#[test]
fn test_last_timestamp() {
    let mut g = Graph::new();
    add(&mut g, 1, 2, 1341100972, "MT");
    add(&mut g, 2, 3, 1341200000, "RT");
    let (sender, receiver, rendered, kind) = find_last_timestamp(&g).expect("graph has edges");
    assert_eq!(sender, 2);
    assert_eq!(receiver, 3);
    assert_eq!(rendered, "2012-07-02 03:33:20.000000000");
    assert_eq!(kind, "RT");
}

#[test]
fn test_convert_timestamp_epoch() {
    assert_eq!(convert_timestamp(0), "1970-01-01 00:00:00.000000000");
    assert_eq!(convert_timestamp(50), "1970-01-01 00:00:50.000000000");
}

#[test]
fn test_empty_graph_has_no_timestamps() {
    let g = Graph::new();
    assert!(find_first_timestamp(&g).is_none());
    assert!(find_last_timestamp(&g).is_none());
}

#[test]
fn test_most_tweets() {
    let mut g = Graph::new();
    for i in 0..3 {
        add(&mut g, 89805, 100 + i, 10 + i as u64, "MT");
    }
    add(&mut g, 17, 1, 5, "RT");
    add(&mut g, 17, 2, 6, "RT");
    let (user, interactions) = most_tweets(&g);
    assert_eq!(user, 89805, "Top user ID is not 89805");
    assert_eq!(interactions, 3);
}

#[test]
fn test_most_tweets_tie_first_seen() {
    let mut g = Graph::new();
    add(&mut g, 7, 1, 1, "MT");
    add(&mut g, 7, 2, 2, "MT");
    add(&mut g, 9, 3, 3, "MT");
    add(&mut g, 9, 4, 4, "MT");
    let (user, interactions) = most_tweets(&g);
    assert_eq!((user, interactions), (7, 2));
}

#[test]
fn test_most_tweets_empty() {
    let g = Graph::new();
    assert_eq!(most_tweets(&g), (0, 0));
}

#[test]
fn test_top_ten_influencers() {
    let mut g = Graph::new();
    add(&mut g, 10, 1, 1, "MT");
    add(&mut g, 10, 2, 2, "MT");
    add(&mut g, 3, 4, 3, "MT");
    add(&mut g, 3, 5, 4, "MT");
    add(&mut g, 5, 6, 5, "MT");
    let top = top_ten_influencers(&g);
    // descending degree, ascending id on the tie between 3 and 10
    assert_eq!(top, vec![(3, 2), (10, 2), (5, 1)]);
}

#[test]
fn test_top_k_truncates() {
    let mut g = Graph::new();
    add(&mut g, 10, 1, 1, "MT");
    add(&mut g, 10, 2, 2, "MT");
    add(&mut g, 3, 4, 3, "MT");
    add(&mut g, 3, 5, 4, "MT");
    add(&mut g, 5, 6, 5, "MT");
    assert_eq!(top_k(&g, 2), vec![(3, 2), (10, 2)]);
    assert_eq!(top_k(&g, 0), vec![]);
}

#[test]
fn test_higgs_bfs() {
    let mut g = Graph::new();
    add(&mut g, 1, 2, 1, "MT");
    add(&mut g, 2, 3, 2, "MT");
    add(&mut g, 3, 4, 3, "MT");
    add(&mut g, 1, 5, 4, "MT");
    let (farthest, max_distance) = higgs_bfs(&g, 1);
    assert_eq!(max_distance, 3);
    assert_eq!(farthest, 4);
    assert!(max_distance > 0);
}

#[test]
fn test_higgs_bfs_absent_root() {
    let g = small_graph();
    let (farthest, max_distance) = higgs_bfs(&g, 99);
    assert_eq!((farthest, max_distance), (99, 0));
}

#[test]
fn test_find_layers() {
    let g = small_graph();
    let layers = find_layers(&g);
    assert_eq!(layers.get(4), Some(0));
    assert_eq!(layers.get(1), Some(1));
    assert_eq!(layers.get(5), Some(1));
    assert_eq!(layers.get(2), Some(2));
    assert_eq!(layers.get(3), Some(2));
    // the 7 <-> 8 cycle is unreachable from the root set and stays absent
    assert_eq!(layers.get(7), None);
    assert_eq!(layers.get(8), None);
}

#[test]
fn test_layer_map_count() {
    let g = small_graph();
    let layers = find_layers(&g);
    let counts = layer_map_count(layers);
    assert_eq!(counts.get(0), Some(1));
    assert_eq!(counts.get(1), Some(2));
    assert_eq!(counts.get(2), Some(2));
    assert_eq!(counts.get(3), None);
}

#[test]
fn test_average_interactions() {
    let g = small_graph();
    let layers = find_layers(&g);
    let averages = average_interactions_per_layer(&g, layers);
    // layer 0: {4} with 2 edges -> 2; layer 1: {1, 5} with 2 + 0 -> 1;
    // layer 2: {2, 3} with 1 + 0 -> 0 (truncating division)
    assert_eq!(averages.get(0), Some(2));
    assert_eq!(averages.get(1), Some(1));
    assert_eq!(averages.get(2), Some(0));
    assert_eq!(averages.get(3), None);
}

#[test]
fn test_number_of_nodes() {
    let g = small_graph();
    let mut nodes: std::collections::HashSet<usize> = std::collections::HashSet::new();
    for (source, edges) in &g.adj {
        nodes.insert(*source);
        for e in edges {
            nodes.insert(e.target);
        }
    }
    assert_eq!(nodes.len(), 7);
}
