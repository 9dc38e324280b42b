use fm3_gfa::gfa::{GFAGraph, GraphError, NodeData, Provenance};

fn chain() -> GFAGraph {
    let mut g = GFAGraph::new();
    g.add_node(b"A".to_vec(), "ACGTA".to_string(), Provenance::Unspecified);
    g.add_node(b"B".to_vec(), "CCCCC".to_string(), Provenance::Unspecified);
    g.add_node(b"C".to_vec(), "GGGGG".to_string(), Provenance::Unspecified);
    g.add_node(b"D".to_vec(), "TTTTT".to_string(), Provenance::Unspecified);
    g.add_edge(b"A", b"B").unwrap();
    g.add_edge(b"B", b"C").unwrap();
    g.add_edge(b"C", b"D").unwrap();
    g
}

#[test]
fn new_store_is_empty() {
    let g = GFAGraph::new();
    assert_eq!(g.node_count(), 0);
    assert_eq!(g.edge_count(), 0);
    assert_eq!(g.get_node_idx(b"A"), None);
    assert!(g.get_node_data(0).is_none());
    assert!(g.neighbors(0).is_empty());
    assert!(g.node_indices().is_empty());
}

#[test]
fn add_node_gives_slots_in_order() {
    let mut g = GFAGraph::new();
    assert_eq!(g.add_node(b"s1".to_vec(), "AC".to_string(), Provenance::Reference), 0);
    assert_eq!(g.add_node(b"s2".to_vec(), "GT".to_string(), Provenance::Alternate), 1);
    assert_eq!(g.add_node(b"".to_vec(), "".to_string(), Provenance::Unspecified), 2);
    assert_eq!(g.node_count(), 3);
    assert_eq!(g.get_node_idx(b"s1"), Some(0));
    assert_eq!(g.get_node_idx(b"s2"), Some(1));
    assert_eq!(g.get_node_idx(b""), Some(2));
    assert_eq!(g.get_node_idx(b"s3"), None);
    assert_eq!(g.node_indices(), vec![0, 1, 2]);
    let n = g.get_node_data(1).unwrap();
    assert_eq!(n.id, b"s2".to_vec());
    assert_eq!(n.sequence, "GT");
    assert_eq!(n.status, Provenance::Alternate);
}

#[test]
fn add_node_again_overwrites_in_place() {
    let mut g = chain();
    let slot = g.add_node(b"B".to_vec(), "TTTTTTTT".to_string(), Provenance::Alternate);
    assert_eq!(slot, 1);
    assert_eq!(g.node_count(), 4);
    assert_eq!(g.edge_count(), 3);
    let n = g.get_node_data_by_id(b"B").unwrap();
    assert_eq!(n.sequence, "TTTTTTTT");
    assert_eq!(n.status, Provenance::Alternate);
    assert_eq!(g.get_seq_len_by_id(b"B"), Some(8));
    assert_eq!(g.get_node_idx(b"C"), Some(2));
    let mut around = g.neighbors(1);
    around.sort();
    assert_eq!(around, vec![0, 2]);
}

#[test]
fn add_edge_needs_both_nodes() {
    let mut g = chain();
    assert_eq!(g.add_edge(b"A", b"Z"), Err(GraphError::NodeNotFound));
    assert_eq!(g.add_edge(b"Z", b"A"), Err(GraphError::NodeNotFound));
    assert_eq!(g.add_edge(b"Y", b"Z"), Err(GraphError::NodeNotFound));
    assert_eq!(g.edge_count(), 3);
}

#[test]
fn add_edge_twice_keeps_the_edge_count() {
    let mut g = chain();
    assert_eq!(g.add_edge(b"A", b"B"), Ok(()));
    assert_eq!(g.edge_count(), 3);
    assert_eq!(g.add_edge(b"B", b"A"), Ok(()));
    assert_eq!(g.edge_count(), 3);
    assert_eq!(g.add_edge(b"D", b"A"), Ok(()));
    assert_eq!(g.edge_count(), 4);
    assert_eq!(g.add_edge(b"A", b"D"), Ok(()));
    assert_eq!(g.edge_count(), 4);
    assert_eq!(g.neighbors(0), vec![3, 1]);
    assert_eq!(g.neighbors(3), vec![0, 2]);
}

#[test]
fn self_loop_is_one_edge_and_one_neighbor() {
    let mut g = chain();
    assert_eq!(g.add_edge(b"B", b"B"), Ok(()));
    assert_eq!(g.add_edge(b"B", b"B"), Ok(()));
    assert_eq!(g.edge_count(), 4);
    assert_eq!(g.neighbors(1), vec![1, 2, 0]);
}

#[test]
fn neighbors_list_later_edges_first() {
    let mut g = GFAGraph::new();
    for id in [b"0", b"1", b"2", b"3", b"4"] {
        g.add_node(id.to_vec(), "A".to_string(), Provenance::Unspecified);
    }
    g.add_edge(b"2", b"0").unwrap();
    g.add_edge(b"2", b"3").unwrap();
    g.add_edge(b"1", b"2").unwrap();
    g.add_edge(b"4", b"2").unwrap();
    // From 2: the edges stored as (2, 3), (2, 4), latest first; towards 2:
    // the edges stored as (0, 2), (1, 2), latest first.
    assert_eq!(g.neighbors(2), vec![4, 3, 1, 0]);
    assert_eq!(g.neighbors_by_id(b"2"), vec![4, 3, 1, 0]);
    assert_eq!(g.neighbors(0), vec![2]);
    assert!(g.neighbors(5).is_empty());
    assert!(g.neighbors(usize::MAX).is_empty());
    assert!(g.neighbors_by_id(b"9").is_empty());
}

#[test]
fn lookups_by_slot_and_by_id() {
    let g = chain();
    assert_eq!(g.get_id(2), Some(&b"C"[..]));
    assert_eq!(g.get_id(4), None);
    assert_eq!(g.get_sequence(0), Some(&b"ACGTA"[..]));
    assert_eq!(g.get_sequence(9), None);
    assert_eq!(g.get_seq_len(3), Some(5));
    assert_eq!(g.get_seq_len(4), None);
    assert_eq!(g.get_seq_len_by_id(b"A"), Some(5));
    assert_eq!(g.get_seq_len_by_id(b"E"), None);
    assert!(g.get_node_data_by_id(b"E").is_none());
    assert_eq!(g.get_node_data_by_id(b"D").unwrap().sequence, "TTTTT");
}

#[test]
fn sequence_length_counts_bytes() {
    let mut g = GFAGraph::new();
    g.add_node(b"n".to_vec(), "a\u{e9}\u{4e2d}".to_string(), Provenance::Unspecified);
    assert_eq!(g.get_seq_len(0), Some(6));
}

#[test]
fn many_ids_stay_apart() {
    let mut g = GFAGraph::new();
    for i in 0..2000usize {
        let slot = g.add_node(format!("{}", i).into_bytes(), "A".to_string(), Provenance::Unspecified);
        assert_eq!(slot, i);
    }
    for i in 0..2000usize {
        assert_eq!(g.get_node_idx(format!("{}", i).as_bytes()), Some(i));
    }
    assert_eq!(g.get_node_idx(b"2000"), None);
}

#[test]
fn components_and_paths() {
    let mut g = chain();
    g.add_node(b"E".to_vec(), "A".to_string(), Provenance::Unspecified);
    assert_eq!(g.connected_components(), 2);
    assert_eq!(g.shortest_path(b"A", b"D"), Some(vec![0, 1, 2, 3]));
    assert_eq!(g.shortest_path(b"D", b"B"), Some(vec![3, 2, 1]));
    assert_eq!(g.shortest_path(b"A", b"A"), Some(vec![0]));
    assert_eq!(g.shortest_path(b"A", b"E"), None);
    assert_eq!(g.shortest_path(b"A", b"Z"), None);
    assert_eq!(g.shortest_path(b"Z", b"A"), None);
}

#[test]
fn default_node_is_blank() {
    let n = NodeData::default();
    assert!(n.id.is_empty());
    assert!(n.sequence.is_empty());
    assert_eq!(n.status, Provenance::Unspecified);
}
