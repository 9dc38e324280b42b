use fm3_gfa::bfs::{extract_subgraph_by_bfs, query_at_len, query_dis_step};
use fm3_gfa::gfa::{GFAGraph, GraphError, Provenance};
use fm3_gfa::vcf::{BubbleVariant, Traversal};

fn path(ids: &[&str]) -> Traversal {
    Traversal { nodes: ids.iter().map(|s| s.as_bytes().to_vec()).collect() }
}

fn bubble(paths: &[&[&str]]) -> BubbleVariant {
    BubbleVariant::new("v".to_string(), 1, paths.iter().map(|p| path(p)).collect()).unwrap()
}

fn graph(nodes: &[(&str, usize)], edges: &[(&str, &str)]) -> GFAGraph {
    let mut g = GFAGraph::new();
    for (id, len) in nodes {
        g.add_node(id.as_bytes().to_vec(), "A".repeat(*len), Provenance::Unspecified);
    }
    for (a, b) in edges {
        g.add_edge(a.as_bytes(), b.as_bytes()).unwrap();
    }
    g
}

fn ids_of(g: &GFAGraph) -> Vec<String> {
    g.node_indices()
        .into_iter()
        .map(|i| String::from_utf8(g.get_id(i).unwrap().to_vec()).unwrap())
        .collect()
}

fn edges_of(g: &GFAGraph) -> Vec<(String, String)> {
    let ids = ids_of(g);
    let mut out = Vec::new();
    for a in 0..ids.len() {
        for b in g.neighbors(a) {
            if a <= b {
                out.push((ids[a].clone(), ids[b].clone()));
            }
        }
    }
    out.sort();
    out
}

fn tag_of(g: &GFAGraph, id: &str) -> Provenance {
    g.get_node_data_by_id(id.as_bytes()).unwrap().status
}

fn chain() -> GFAGraph {
    graph(&[("A", 5), ("B", 5), ("C", 5), ("D", 5)], &[("A", "B"), ("B", "C"), ("C", "D")])
}

#[test]
fn chain_bubble_bounds() {
    let g = chain();
    let b = bubble(&[&["A", "D"], &["A", "B", "D"]]);
    assert_eq!(query_dis_step(&b, &g), Ok((5, 1)));
    assert_eq!(query_at_len(&b.get_ref_nodes(), &g), Ok(0));
    assert_eq!(query_at_len(&b.get_alt_nodes(), &g), Ok(5));
    assert!(b.get_ref_nodes().is_empty());
    assert_eq!(b.get_alt_nodes(), vec![b"B".to_vec()]);
}

#[test]
fn chain_bubble_seeds_and_tags() {
    let g = chain();
    let b = bubble(&[&["A", "D"], &["A", "B", "D"]]);
    let sub = extract_subgraph_by_bfs(&b, &g).unwrap();
    // The seeds come first, in the order of the traversals.
    assert_eq!(&ids_of(&sub)[..3], ["A", "D", "B"]);
    assert_eq!(tag_of(&sub, "A"), Provenance::Reference);
    assert_eq!(tag_of(&sub, "D"), Provenance::Reference);
    assert_eq!(tag_of(&sub, "B"), Provenance::Alternate);
    assert!(edges_of(&sub).contains(&("A".to_string(), "B".to_string())));
}

#[test]
fn chain_bubble_neighbourhood() {
    let g = chain();
    let b = bubble(&[&["A", "D"], &["A", "B", "D"]]);
    let sub = extract_subgraph_by_bfs(&b, &g).unwrap();
    // Every seed starts at distance 0 and step 0, so C, one step and five
    // bases from the seed D, is within both bounds; from C, at distance 5 and
    // step 1, nothing further is.
    assert_eq!(ids_of(&sub), ["A", "D", "B", "C"]);
    assert_eq!(tag_of(&sub, "C"), Provenance::Reference);
    assert_eq!(
        edges_of(&sub),
        [
            ("A".to_string(), "B".to_string()),
            ("B".to_string(), "C".to_string()),
            ("D".to_string(), "C".to_string()),
        ]
    );
    assert_eq!(sub.node_count(), 4);
    assert_eq!(sub.edge_count(), 3);
    assert_eq!(sub.get_seq_len_by_id(b"C"), Some(5));
}

#[test]
fn search_stops_where_both_bounds_are_passed() {
    // S - a - b - c - d, all of length 10; the bubble's interior is one node
    // of length 10.
    let g = graph(
        &[("L", 1), ("X", 10), ("R", 1), ("a", 10), ("b", 10), ("c", 10)],
        &[("L", "X"), ("X", "R"), ("R", "a"), ("a", "b"), ("b", "c")],
    );
    let b = bubble(&[&["L", "R"], &["L", "X", "R"]]);
    assert_eq!(query_dis_step(&b, &g), Ok((10, 1)));
    let sub = extract_subgraph_by_bfs(&b, &g).unwrap();
    // a is reached from R at distance 1, step 1. b would be at distance 11,
    // step 2: beyond both bounds.
    assert_eq!(ids_of(&sub), ["L", "R", "X", "a"]);
    assert_eq!(
        edges_of(&sub),
        [
            ("L".to_string(), "X".to_string()),
            ("R".to_string(), "X".to_string()),
            ("R".to_string(), "a".to_string()),
        ]
    );
}

#[test]
fn distance_bound_alone_carries_the_search() {
    // Short nodes behind the anchor: the step bound is 1, the distance bound
    // 100 reaches further.
    let g = graph(
        &[("L", 1), ("X", 100), ("R", 1), ("a", 1), ("b", 1), ("c", 200), ("d", 1)],
        &[("L", "X"), ("X", "R"), ("R", "a"), ("a", "b"), ("b", "c"), ("c", "d")],
    );
    let b = bubble(&[&["L", "R"], &["L", "X", "R"]]);
    assert_eq!(query_dis_step(&b, &g), Ok((100, 1)));
    let sub = extract_subgraph_by_bfs(&b, &g).unwrap();
    // a: 1, b: 2, c: 3 are within 100; d would be at 203, step 4.
    assert_eq!(ids_of(&sub), ["L", "R", "X", "a", "b", "c"]);
}

#[test]
fn step_bound_alone_carries_the_search() {
    // Three interior nodes of length 1: distance bound 3, step bound 3.
    let g = graph(
        &[("L", 1), ("x", 1), ("y", 1), ("z", 1), ("R", 50), ("a", 50), ("b", 50), ("c", 50), ("d", 50)],
        &[("L", "x"), ("x", "y"), ("y", "z"), ("z", "R"), ("R", "a"), ("a", "b"), ("b", "c"), ("c", "d")],
    );
    let b = bubble(&[&["L", "R"], &["L", "x", "y", "z", "R"]]);
    assert_eq!(query_dis_step(&b, &g), Ok((3, 3)));
    let sub = extract_subgraph_by_bfs(&b, &g).unwrap();
    // a, b, c are 1, 2, 3 steps from R; d would be the fourth.
    assert_eq!(ids_of(&sub), ["L", "R", "x", "y", "z", "a", "b", "c"]);
    assert_eq!(tag_of(&sub, "x"), Provenance::Alternate);
    assert_eq!(tag_of(&sub, "a"), Provenance::Reference);
}

#[test]
fn every_traversal_counts_for_the_bounds() {
    let g = graph(
        &[("L", 1), ("p", 2), ("q", 30), ("r", 4), ("s", 4), ("t", 4), ("R", 1)],
        &[("L", "p"), ("p", "R"), ("L", "q"), ("q", "R"), ("L", "r"), ("r", "s"), ("s", "t"), ("t", "R")],
    );
    let b = bubble(&[&["L", "p", "R"], &["L", "q", "R"], &["L", "r", "s", "t", "R"]]);
    assert_eq!(query_dis_step(&b, &g), Ok((30, 3)));
    let sub = extract_subgraph_by_bfs(&b, &g).unwrap();
    assert_eq!(ids_of(&sub), ["L", "p", "R", "q", "r", "s", "t"]);
    assert_eq!(tag_of(&sub, "L"), Provenance::Reference);
    assert_eq!(tag_of(&sub, "p"), Provenance::Reference);
    assert_eq!(tag_of(&sub, "R"), Provenance::Reference);
    assert_eq!(tag_of(&sub, "q"), Provenance::Alternate);
    assert_eq!(tag_of(&sub, "t"), Provenance::Alternate);
    assert_eq!(sub.edge_count(), 8);
}

#[test]
fn seeds_are_always_extracted() {
    let g = graph(
        &[("1", 3), ("2", 7), ("3", 2), ("4", 9), ("5", 1), ("6", 4)],
        &[("1", "2"), ("2", "4"), ("1", "3"), ("3", "4"), ("4", "5")],
    );
    let paths: [&[&str]; 3] = [&["1", "2", "4"], &["1", "3", "4"], &["6"]];
    let sub = extract_subgraph_by_bfs(&bubble(&paths), &g).unwrap();
    for p in paths {
        for id in p {
            assert!(sub.get_node_idx(id.as_bytes()).is_some());
        }
    }
    // 6 has no edge: it stays alone.
    assert!(sub.neighbors_by_id(b"6").is_empty());
}

#[test]
fn extracted_edges_are_edges_of_the_whole_graph() {
    let g = graph(
        &[("1", 3), ("2", 7), ("3", 2), ("4", 9), ("5", 1), ("6", 4), ("7", 2)],
        &[("1", "2"), ("2", "4"), ("1", "3"), ("3", "4"), ("4", "5"), ("5", "6"), ("6", "7"), ("7", "1"), ("2", "3")],
    );
    let sub = extract_subgraph_by_bfs(&bubble(&[&["1", "2", "4"], &["1", "3", "4"]]), &g).unwrap();
    let whole = edges_of(&g);
    let inside = ids_of(&sub);
    for (a, b) in edges_of(&sub) {
        assert!(inside.contains(&a) && inside.contains(&b));
        assert!(whole.contains(&(a.clone(), b.clone())) || whole.contains(&(b, a)));
    }
    assert!(sub.node_count() <= g.node_count());
    assert!(sub.edge_count() <= g.edge_count());
    let mut unique = inside.clone();
    unique.sort();
    unique.dedup();
    assert_eq!(unique.len(), inside.len());
}

#[test]
fn scaling_every_length_scales_the_distance_bound() {
    let nodes = [("L", 2), ("x", 3), ("y", 4), ("R", 5), ("a", 1), ("b", 6), ("c", 2), ("d", 9)];
    let edges = [("L", "x"), ("x", "R"), ("L", "y"), ("y", "R"), ("R", "a"), ("a", "b"), ("b", "c"), ("c", "d"), ("L", "d")];
    let b = bubble(&[&["L", "x", "R"], &["L", "y", "R"]]);
    let g = graph(&nodes, &edges);
    let base = extract_subgraph_by_bfs(&b, &g).unwrap();
    assert_eq!(query_dis_step(&b, &g), Ok((4, 1)));
    for factor in [1usize, 2, 7, 100] {
        let scaled: Vec<(&str, usize)> = nodes.iter().map(|(id, len)| (*id, len * factor)).collect();
        let h = graph(&scaled, &edges);
        assert_eq!(query_dis_step(&b, &h), Ok((4 * factor as u128, 1)));
        let sub = extract_subgraph_by_bfs(&b, &h).unwrap();
        assert!(sub.node_count() >= base.node_count());
        assert_eq!(ids_of(&sub), ids_of(&base));
        assert_eq!(edges_of(&sub), edges_of(&base));
    }
}

#[test]
fn bubble_without_traversals_is_malformed() {
    let g = chain();
    let b = bubble(&[]);
    assert_eq!(extract_subgraph_by_bfs(&b, &g).unwrap_err(), GraphError::MalformedBubble);
    assert_eq!(query_dis_step(&b, &g), Err(GraphError::MalformedBubble));
    assert_eq!(query_dis_step(&b, &GFAGraph::new()), Err(GraphError::MalformedBubble));
}

#[test]
fn unknown_id_is_node_not_found() {
    let g = chain();
    assert_eq!(
        extract_subgraph_by_bfs(&bubble(&[&["A", "D"], &["A", "Z", "D"]]), &g).unwrap_err(),
        GraphError::NodeNotFound
    );
    assert_eq!(
        extract_subgraph_by_bfs(&bubble(&[&["A", "Z"], &["A", "B", "D"]]), &g).unwrap_err(),
        GraphError::NodeNotFound
    );
    assert_eq!(query_dis_step(&bubble(&[&["A", "D"], &["A", "Z", "D"]]), &g), Err(GraphError::NodeNotFound));
    // An unknown anchor does not count for the bounds.
    assert_eq!(query_dis_step(&bubble(&[&["A", "Z"], &["A", "B", "D"]]), &g), Ok((5, 1)));
    assert_eq!(query_at_len(&vec![b"B".to_vec(), b"Q".to_vec()], &g), Err(GraphError::NodeNotFound));
    assert_eq!(query_at_len(&vec![b"B".to_vec(), b"C".to_vec(), b"B".to_vec()], &g), Ok(15));
}

#[test]
fn degenerate_traversals_have_an_empty_interior() {
    let g = chain();
    let b = bubble(&[&["A"], &[]]);
    assert_eq!(query_dis_step(&b, &g), Ok((0, 0)));
    let sub = extract_subgraph_by_bfs(&b, &g).unwrap();
    // With both bounds at zero nothing beyond the seed is taken.
    assert_eq!(ids_of(&sub), ["A"]);
    assert_eq!(sub.edge_count(), 0);
}

#[test]
fn reconvergence_edges_are_kept() {
    // A square: both neighbours of the seed reach the far corner; the edge
    // from the second one is kept although the corner was already visited.
    let g = graph(
        &[("s", 1), ("m", 2), ("l", 1), ("r", 1), ("f", 1)],
        &[("s", "m"), ("s", "l"), ("s", "r"), ("l", "f"), ("r", "f")],
    );
    let b = bubble(&[&["s", "s"], &["s", "m", "s"]]);
    assert_eq!(query_dis_step(&b, &g), Ok((2, 1)));
    let sub = extract_subgraph_by_bfs(&b, &g).unwrap();
    assert_eq!(sub.node_count(), 5);
    assert_eq!(sub.edge_count(), 5);
}

#[test]
fn whole_graph_is_left_as_it_was() {
    let g = chain();
    let b = bubble(&[&["A", "D"], &["A", "B", "D"]]);
    let _ = extract_subgraph_by_bfs(&b, &g).unwrap();
    assert_eq!(g.node_count(), 4);
    assert_eq!(g.edge_count(), 3);
    assert_eq!(tag_of(&g, "A"), Provenance::Unspecified);
}
