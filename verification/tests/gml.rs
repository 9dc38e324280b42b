use fm3_gfa::gml::{
    int_get_attribute, int_take_attribute, Edge, GMLError, GMLFault, GMLGraph, GMLObject, GMLValue, HasGMLAttributes, Node,
    ReadableGMLAttributes,
};
use std::str::FromStr;

fn text(s: &str) -> GMLValue {
    GMLValue::GMLString(s.to_string())
}

fn list(pairs: Vec<(&str, GMLValue)>) -> GMLValue {
    GMLValue::GMLObject(Box::new(object(pairs)))
}

fn object(pairs: Vec<(&str, GMLValue)>) -> GMLObject {
    GMLObject { pairs: pairs.into_iter().map(|(k, v)| (k.to_string(), v)).collect() }
}

fn fault<T: std::fmt::Debug>(r: Result<T, GMLError>) -> GMLFault {
    r.unwrap_err().0
}

#[test]
fn parse_empty() {
    let root = GMLObject::from_str("").unwrap();
    assert!(GMLGraph::from_gml(root).is_err());
}

#[test]
fn empty_and_blank_texts_are_empty_documents() {
    assert!(GMLObject::from_text("").unwrap().pairs.is_empty());
    assert!(GMLObject::from_text(" \t\r\n ").unwrap().pairs.is_empty());
}

#[test]
fn reads_every_kind_of_value() {
    let doc = GMLObject::from_text("a 1 b -2 c +3 d 1.5 e \"x y\" f [ g 7 h [ ] ] i 1e3 j 2.5E-7 k 5.").unwrap();
    assert_eq!(
        doc,
        object(vec![
            ("a", GMLValue::GMLInt(1)),
            ("b", GMLValue::GMLInt(-2)),
            ("c", GMLValue::GMLInt(3)),
            ("d", GMLValue::GMLFloat("1.5".to_string())),
            ("e", text("x y")),
            ("f", list(vec![("g", GMLValue::GMLInt(7)), ("h", list(vec![]))])),
            ("i", GMLValue::GMLFloat("1e3".to_string())),
            ("j", GMLValue::GMLFloat("2.5E-7".to_string())),
            ("k", GMLValue::GMLFloat("5.".to_string())),
        ])
    );
}

#[test]
fn integers_beyond_64_bits_are_kept_as_written() {
    let doc = GMLObject::from_text(
        "a 9223372036854775807 b 9223372036854775808 c -9223372036854775808 d -9223372036854775809 e 00012 f 123456789012345678901234567890",
    )
    .unwrap();
    assert_eq!(
        doc,
        object(vec![
            ("a", GMLValue::GMLInt(i64::MAX)),
            ("b", GMLValue::GMLFloat("9223372036854775808".to_string())),
            ("c", GMLValue::GMLInt(i64::MIN)),
            ("d", GMLValue::GMLFloat("-9223372036854775809".to_string())),
            ("e", GMLValue::GMLInt(12)),
            ("f", GMLValue::GMLFloat("123456789012345678901234567890".to_string())),
        ])
    );
}

#[test]
fn blanks_between_tokens_are_optional() {
    let doc = GMLObject::from_text("graph[node[id 1label\"a\"]edge[source 1target 1]]").unwrap();
    assert_eq!(
        doc,
        object(vec![(
            "graph",
            list(vec![
                ("node", list(vec![("id", GMLValue::GMLInt(1)), ("label", text("a"))])),
                ("edge", list(vec![("source", GMLValue::GMLInt(1)), ("target", GMLValue::GMLInt(1))])),
            ])
        )])
    );
}

#[test]
fn text_keeps_what_stands_between_the_quotes() {
    let doc = GMLObject::from_text("s \"\" t \" [a] 1 \n\" u \"\u{e9}\u{4e2d}\u{1f600}\" _k9 \"z\"").unwrap();
    assert_eq!(
        doc,
        object(vec![("s", text("")), ("t", text(" [a] 1 \n")), ("u", text("\u{e9}\u{4e2d}\u{1f600}")), ("_k9", text("z"))])
    );
}

#[test]
fn creator_line_is_passed_over() {
    let doc = GMLObject::from_text("Creator \"ogdf::GraphIO::writeGML\"\ngraph [ ]").unwrap();
    assert_eq!(doc, object(vec![("graph", list(vec![]))]));
    // Only at the head, and only with a text.
    let doc = GMLObject::from_text("a 1 Creator \"x\"").unwrap();
    assert_eq!(doc, object(vec![("a", GMLValue::GMLInt(1)), ("Creator", text("x"))]));
    let doc = GMLObject::from_text("Creator 5").unwrap();
    assert_eq!(doc, object(vec![("Creator", GMLValue::GMLInt(5))]));
}

#[test]
fn what_is_no_document_is_a_syntax_fault() {
    for bad in [
        "a", "a ", "1", "a b", "a \"open", "a [ b 1", "a ]", "a 1 ]", "a [ b ] ", "a 1 #", "a -", "a 1.5.5", "a 1e",
        "a 1e+", "a .5", "a +-1", "a 1 2", "\u{e9} 1", "a \u{e9}", "a 12x", "9a 1", "[ a 1 ]",
    ] {
        assert_eq!(GMLObject::from_text(bad).unwrap_err(), GMLError(GMLFault::Syntax), "{:?}", bad);
    }
}

#[test]
fn take_attribute_moves_the_last_entry_into_the_gap() {
    let mut attrs = object(vec![
        ("a", GMLValue::GMLInt(1)),
        ("b", GMLValue::GMLInt(2)),
        ("a", GMLValue::GMLInt(3)),
        ("c", GMLValue::GMLInt(4)),
    ])
    .pairs;
    assert_eq!(int_get_attribute(&attrs, "a"), Some(&("a".to_string(), GMLValue::GMLInt(1))));
    assert_eq!(int_get_attribute(&attrs, "z"), None);
    assert_eq!(int_take_attribute(&mut attrs, "a"), Some(("a".to_string(), GMLValue::GMLInt(1))));
    assert_eq!(
        attrs,
        object(vec![("c", GMLValue::GMLInt(4)), ("b", GMLValue::GMLInt(2)), ("a", GMLValue::GMLInt(3))]).pairs
    );
    assert_eq!(int_take_attribute(&mut attrs, "a"), Some(("a".to_string(), GMLValue::GMLInt(3))));
    assert_eq!(attrs, object(vec![("c", GMLValue::GMLInt(4)), ("b", GMLValue::GMLInt(2))]).pairs);
    assert_eq!(int_take_attribute(&mut attrs, "a"), None);
    assert_eq!(attrs.len(), 2);
}

#[test]
fn node_from_its_list() {
    let node = Node::from_gml(object(vec![("x", text("y")), ("label", text("n1")), ("id", GMLValue::GMLInt(7))])).unwrap();
    assert_eq!(node.id, 7);
    assert_eq!(node.label, Some("n1".to_string()));
    assert_eq!(node.attrs, object(vec![("x", text("y"))]).pairs);
    let bare = Node::from_gml(object(vec![("id", GMLValue::GMLInt(-1))])).unwrap();
    assert_eq!(bare, Node { id: -1, label: None, attrs: vec![] });
    assert_eq!(fault(Node::from_gml(object(vec![("label", text("n"))]))), GMLFault::NoNodeId);
    assert_eq!(fault(Node::from_gml(object(vec![("id", text("7"))]))), GMLFault::NodeId);
    assert_eq!(fault(Node::from_gml(object(vec![("id", GMLValue::GMLFloat("7.0".to_string()))]))), GMLFault::NodeId);
    assert_eq!(
        fault(Node::from_gml(object(vec![("id", GMLValue::GMLInt(7)), ("label", GMLValue::GMLInt(1))]))),
        GMLFault::Label
    );
}

#[test]
fn edge_from_its_list() {
    let edge = Edge::from_gml(object(vec![
        ("source", GMLValue::GMLInt(1)),
        ("w", GMLValue::GMLInt(9)),
        ("target", GMLValue::GMLInt(2)),
        ("label", text("e")),
    ]))
    .unwrap();
    assert_eq!(edge.source, 1);
    assert_eq!(edge.target, 2);
    assert_eq!(edge.label, Some("e".to_string()));
    assert_eq!(edge.attrs, object(vec![("w", GMLValue::GMLInt(9))]).pairs);
    let s = |v| ("source", v);
    let t = |v| ("target", v);
    assert_eq!(fault(Edge::from_gml(object(vec![t(GMLValue::GMLInt(2))]))), GMLFault::NoSource);
    assert_eq!(fault(Edge::from_gml(object(vec![s(text("1")), t(GMLValue::GMLInt(2))]))), GMLFault::Source);
    assert_eq!(fault(Edge::from_gml(object(vec![s(GMLValue::GMLInt(1))]))), GMLFault::NoTarget);
    assert_eq!(fault(Edge::from_gml(object(vec![s(GMLValue::GMLInt(1)), t(list(vec![]))]))), GMLFault::Target);
    assert_eq!(
        fault(Edge::from_gml(object(vec![s(GMLValue::GMLInt(1)), t(GMLValue::GMLInt(2)), ("label", list(vec![]))]))),
        GMLFault::Label
    );
}

#[test]
fn graph_from_a_document() {
    let doc = GMLObject::from_text(
        "graph [ directed 1 id 42 label \"g\" node [ id 1 ] node [ id 2 ] node [ id 3 ] edge [ source 1 target 2 ] comment \"c\" ]",
    )
    .unwrap();
    let g = GMLGraph::from_gml(doc).unwrap();
    assert_eq!(g.directed, Some(true));
    assert_eq!(g.id, Some(42));
    assert_eq!(g.label, Some("g".to_string()));
    assert_eq!(g.nodes.len(), 3);
    assert_eq!(g.edges.len(), 1);
    assert_eq!((g.edges[0].source, g.edges[0].target), (1, 2));
    assert_eq!(g.attrs, object(vec![("comment", text("c"))]).pairs);
    let mut ids: Vec<i64> = g.nodes.iter().map(|n| n.id).collect();
    ids.sort();
    assert_eq!(ids, [1, 2, 3]);
}

#[test]
fn nodes_come_in_the_order_in_which_they_are_taken() {
    // Taking an entry moves the last entry into its place, so of the nodes
    // alone the first is followed by the last.
    let doc = GMLObject::from_text("graph [ node [ id 1 ] node [ id 2 ] node [ id 3 ] node [ id 4 ] ]").unwrap();
    let g = GMLGraph::from_gml(doc).unwrap();
    let ids: Vec<i64> = g.nodes.iter().map(|n| n.id).collect();
    assert_eq!(ids, [1, 4, 3, 2]);
    assert_eq!(g.directed, None);
    assert_eq!(g.id, None);
    assert_eq!(g.label, None);
    assert!(g.attrs.is_empty());
}

#[test]
fn directed_is_true_for_one_only() {
    for (flag, want) in [(0, false), (1, true), (2, false), (-1, false)] {
        let g = GMLGraph::int_from_gml(object(vec![("directed", GMLValue::GMLInt(flag))])).unwrap();
        assert_eq!(g.directed, Some(want));
    }
}

#[test]
fn graph_faults() {
    assert_eq!(fault(GMLGraph::from_gml(object(vec![]))), GMLFault::NoGraph);
    assert_eq!(fault(GMLGraph::from_gml(object(vec![("graph", GMLValue::GMLInt(1))]))), GMLFault::GraphNotObject);
    let inside = |pairs| GMLGraph::from_gml(object(vec![("graph", list(pairs))]));
    assert_eq!(fault(inside(vec![("id", text("x"))])), GMLFault::GraphId);
    assert_eq!(fault(inside(vec![("directed", text("x"))])), GMLFault::GraphDirected);
    assert_eq!(fault(inside(vec![("label", GMLValue::GMLInt(1))])), GMLFault::Label);
    assert_eq!(fault(inside(vec![("node", GMLValue::GMLInt(1))])), GMLFault::NodeNotObject);
    assert_eq!(fault(inside(vec![("edge", text("e"))])), GMLFault::EdgeNotObject);
    assert_eq!(fault(inside(vec![("node", list(vec![]))])), GMLFault::NoNodeId);
    assert_eq!(fault(inside(vec![("edge", list(vec![]))])), GMLFault::NoSource);
    // The nodes are read before the edges.
    assert_eq!(
        fault(inside(vec![("edge", list(vec![])), ("node", list(vec![("id", text("x"))]))])),
        GMLFault::NodeId
    );
}

#[test]
fn new_graph_is_empty() {
    for g in [GMLGraph::new(), GMLGraph::default()] {
        assert_eq!(g.directed, None);
        assert_eq!(g.id, None);
        assert_eq!(g.label, None);
        assert!(g.nodes.is_empty() && g.edges.is_empty() && g.attrs.is_empty());
    }
}

#[test]
fn attributes_by_key() {
    let mut node = Node::from_gml(object(vec![
        ("id", GMLValue::GMLInt(1)),
        ("sequence", text("ACGT")),
        ("status", text("REF")),
        ("weight", GMLValue::GMLInt(3)),
    ]))
    .unwrap();
    assert_eq!(node.attributes().len(), 3);
    assert_eq!(node.get_attribute("status"), Some(&("status".to_string(), text("REF"))));
    assert_eq!(node.get_attribute("id"), None);
    assert_eq!(node.get_text("sequence"), Some(&"ACGT".to_string()));
    assert_eq!(node.get_text("weight"), None);
    assert_eq!(node.get_text("absent"), None);
    assert_eq!(node.take_attribute("sequence"), Some(("sequence".to_string(), text("ACGT"))));
    assert_eq!(node.take_attribute("sequence"), None);
    assert_eq!(node.attrs, object(vec![("weight", GMLValue::GMLInt(3)), ("status", text("REF"))]).pairs);
    node.attributes_mut().clear();
    assert!(node.attributes().is_empty());

    let mut edge = Edge::from_gml(object(vec![
        ("source", GMLValue::GMLInt(1)),
        ("target", GMLValue::GMLInt(2)),
        ("k", text("v")),
    ]))
    .unwrap();
    assert_eq!(edge.get_attribute("k"), Some(&("k".to_string(), text("v"))));
    assert_eq!(edge.take_attribute("k"), Some(("k".to_string(), text("v"))));
    assert!(edge.attributes().is_empty());
    edge.attributes_mut().push(("n".to_string(), GMLValue::GMLInt(1)));
    assert_eq!(edge.attrs.len(), 1);

    let mut g = GMLGraph::int_from_gml(object(vec![("k", text("v")), ("id", GMLValue::GMLInt(1))])).unwrap();
    assert_eq!(g.get_attribute("k"), Some(&("k".to_string(), text("v"))));
    assert_eq!(g.take_attribute("id"), None);
    assert_eq!(g.take_attribute("k"), Some(("k".to_string(), text("v"))));
    assert!(g.attributes().is_empty());
    g.attributes_mut().push(("n".to_string(), GMLValue::GMLInt(1)));
    assert_eq!(g.attrs.len(), 1);
}

#[test]
fn graphic_position_takes_the_last_number_that_is_no_integer() {
    let node = |graphics: GMLValue| Node { id: 1, label: None, attrs: vec![("graphics".to_string(), graphics)] };
    let real = |s: &str| GMLValue::GMLFloat(s.to_string());
    let n = node(list(vec![("x", real("157.0")), ("y", real("137.5")), ("w", real("0.0")), ("type", text("rectangle"))]));
    assert_eq!(n.get_graphic_pos(), (Some(&"157.0".to_string()), Some(&"137.5".to_string())));
    let n = node(list(vec![("x", real("1.0")), ("x", GMLValue::GMLInt(9)), ("x", real("2.0")), ("y", GMLValue::GMLInt(3))]));
    assert_eq!(n.get_graphic_pos(), (Some(&"2.0".to_string()), None));
    let n = node(text("none"));
    assert_eq!(n.get_graphic_pos(), (None, None));
    let n = Node { id: 1, label: None, attrs: vec![] };
    assert_eq!(n.get_graphic_pos(), (None, None));
}
