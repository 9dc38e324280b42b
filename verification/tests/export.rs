use fm3_gfa::export::{decimal, signed_decimal, status_str};
use fm3_gfa::gfa::{build_graph, GFAGraph, Link, Provenance, Segment};
use fm3_gfa::gml::{GMLGraph, GMLObject};

#[test]
fn decimal_writes_numbers() {
    assert_eq!(decimal(0), "0");
    assert_eq!(decimal(7), "7");
    assert_eq!(decimal(10), "10");
    assert_eq!(decimal(1234567890), "1234567890");
    assert_eq!(decimal(u64::MAX), "18446744073709551615");
    assert_eq!(signed_decimal(0), "0");
    assert_eq!(signed_decimal(-1), "-1");
    assert_eq!(signed_decimal(305), "305");
    assert_eq!(signed_decimal(i64::MAX), "9223372036854775807");
    assert_eq!(signed_decimal(i64::MIN), "-9223372036854775808");
}

#[test]
fn status_words() {
    assert_eq!(status_str(Provenance::Reference), "REF");
    assert_eq!(status_str(Provenance::Alternate), "ALT");
    assert_eq!(status_str(Provenance::Unspecified), "");
}

#[test]
fn empty_store_as_text() {
    assert_eq!(GFAGraph::new().to_gml_string(), "graph [\n]\n");
}

#[test]
fn store_as_text() {
    let mut g = GFAGraph::new();
    g.add_node(b"s1".to_vec(), "ACGT".to_string(), Provenance::Reference);
    g.add_node(b"s2".to_vec(), "".to_string(), Provenance::Alternate);
    g.add_node(vec![0x66, 0xff, 0x6f], "T".to_string(), Provenance::Unspecified);
    g.add_edge(b"s2", b"s1").unwrap();
    g.add_edge(b"s1", b"s2").unwrap();
    g.add_edge(&[0x66, 0xff, 0x6f], b"s1").unwrap();
    let want = "graph [\n\
        \tnode [\n\t\tid 0\n\t\tlabel \"s1\"\n\t\tsequence \"ACGT\"\n\t\tstatus \"REF\"\n\t]\n\
        \tnode [\n\t\tid 1\n\t\tlabel \"s2\"\n\t\tsequence \"\"\n\t\tstatus \"ALT\"\n\t]\n\
        \tnode [\n\t\tid 2\n\t\tlabel \"f\u{fffd}o\"\n\t\tsequence \"T\"\n\t\tstatus \"\"\n\t]\n\
        \tedge [\n\t\tsource 0\n\t\ttarget 1\n\t]\n\
        \tedge [\n\t\tsource 0\n\t\ttarget 2\n\t]\n\
        ]\n";
    assert_eq!(g.to_gml_string(), want);
    assert_eq!(g.edges(), vec![(0, 1), (0, 2)]);
}

#[test]
fn text_reads_back_as_the_graph() {
    let mut g = GFAGraph::new();
    for (i, id) in ["a", "b", "c", "d", "e", "f", "g", "h", "i", "j", "k", "l"].iter().enumerate() {
        let tag = if i % 2 == 0 { Provenance::Reference } else { Provenance::Alternate };
        g.add_node(id.as_bytes().to_vec(), "AC".repeat(i), tag);
    }
    g.add_edge(b"a", b"l").unwrap();
    g.add_edge(b"k", b"b").unwrap();
    let doc = GMLObject::from_text(&g.to_gml_string()).unwrap();
    let read = GMLGraph::from_gml(doc).unwrap();
    assert_eq!(read.nodes.len(), 12);
    for node in &read.nodes {
        let data = g.get_node_data(node.id as usize).unwrap();
        assert_eq!(node.label.as_ref().unwrap().as_bytes(), &data.id[..]);
        assert_eq!(node.get_text("sequence"), Some(&data.sequence));
        assert_eq!(node.get_text("status").unwrap(), status_str(data.status));
    }
    let mut edges: Vec<(i64, i64)> = read.edges.iter().map(|e| (e.source, e.target)).collect();
    edges.sort();
    assert_eq!(edges, [(0, 11), (1, 10)]);
}

fn segment(name: &str, sequence: &str) -> Segment {
    Segment { name: name.as_bytes().to_vec(), sequence: sequence.to_string() }
}

fn link(from: &str, to: &str) -> Link {
    Link { from_segment: from.as_bytes().to_vec(), to_segment: to.as_bytes().to_vec() }
}

#[test]
fn graph_of_segments_and_links() {
    let segments = vec![segment("1", "AC"), segment("2", "G"), segment("3", "TTT"), segment("2", "GGGG")];
    let links = vec![link("1", "2"), link("3", "2"), link("2", "1"), link("1", "9"), link("8", "1"), link("3", "3")];
    let g = build_graph(&segments, &links);
    assert_eq!(g.node_count(), 3);
    assert_eq!(g.get_node_idx(b"1"), Some(0));
    assert_eq!(g.get_node_idx(b"2"), Some(1));
    assert_eq!(g.get_node_idx(b"3"), Some(2));
    // The later segment of a name overwrites the earlier one.
    assert_eq!(g.get_seq_len_by_id(b"2"), Some(4));
    assert_eq!(g.get_node_data(1).unwrap().status, Provenance::Unspecified);
    // A link is kept once, whichever way it is written; one that names an
    // unknown segment is passed over.
    assert_eq!(g.edges(), vec![(0, 1), (1, 2), (2, 2)]);
    let none = build_graph(&Vec::new(), &vec![link("1", "2")]);
    assert_eq!(none.node_count(), 0);
    assert_eq!(none.edge_count(), 0);
}

#[test]
fn a_double_quote_in_a_sequence_does_not_read_back() {
    // The text does not escape: a double quote ends the value.
    let mut g = GFAGraph::new();
    g.add_node(b"s1".to_vec(), "AC\"GT".to_string(), Provenance::Reference);
    assert!(GMLObject::from_text(&g.to_gml_string()).is_err());
}

#[test]
fn graph_reader_counts_the_records() {
    let mut g = GFAGraph::new();
    for id in ["x", "y", "z"] {
        g.add_node(id.as_bytes().to_vec(), "A".to_string(), Provenance::Unspecified);
    }
    g.add_edge(b"x", b"z").unwrap();
    g.add_edge(b"y", b"y").unwrap();
    let read = GMLGraph::from_gml(GMLObject::from_text(&g.to_gml_string()).unwrap()).unwrap();
    assert_eq!(read.nodes.len(), 3);
    assert_eq!(read.edges.len(), 2);
    assert_eq!(read.id, None);
    assert_eq!(read.directed, None);
    assert_eq!(read.label, None);
    assert!(read.attrs.is_empty());
    let mut ids: Vec<i64> = read.nodes.iter().map(|n| n.id).collect();
    ids.sort();
    assert_eq!(ids, [0, 1, 2]);
    for e in &read.edges {
        assert!(e.label.is_none() && e.attrs.is_empty());
    }
}
