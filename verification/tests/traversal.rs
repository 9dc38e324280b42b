use fm3_gfa::vcf::{Traversal, TraversalError};
use std::str::FromStr;

#[test]
fn test_parse_traversal() {
    let input = ">21610>21611>21612>21613>21614";
    let traversal = Traversal::from_str(input).unwrap();

    assert_eq!(traversal.nodes[0], b"21610");
    assert_eq!(traversal.nodes[1], b"21611");
    assert_eq!(traversal.nodes[2], b"21612");
    assert_eq!(traversal.nodes[3], b"21613");
    assert_eq!(traversal.nodes[4], b"21614");
}

#[test]
fn test_mixed_directions() {
    let input = ">21610<21611>21612";
    let traversal = Traversal::from_str(input).unwrap();

    assert_eq!(traversal.nodes[0], b"21610");
    assert_eq!(traversal.nodes[1], b"21611");
    assert_eq!(traversal.nodes[2], b"21612");
}

#[test]
fn parse_keeps_every_step_and_nothing_else() {
    let traversal = Traversal::parse(">1<22>333").unwrap();
    assert_eq!(traversal.nodes, vec![b"1".to_vec(), b"22".to_vec(), b"333".to_vec()]);
    let single = Traversal::from_bytes(b"<7").unwrap();
    assert_eq!(single.nodes, vec![b"7".to_vec()]);
}

#[test]
fn parse_rejects_text_without_a_leading_step() {
    assert_eq!(Traversal::parse("").unwrap_err(), TraversalError::NoStep);
    assert_eq!(Traversal::parse("21610").unwrap_err(), TraversalError::NoStep);
    assert_eq!(Traversal::parse(">").unwrap_err(), TraversalError::NoStep);
    assert_eq!(Traversal::parse(">a1").unwrap_err(), TraversalError::NoStep);
    assert_eq!(Traversal::parse(" >1").unwrap_err(), TraversalError::NoStep);
}

#[test]
fn parse_reports_where_the_steps_end() {
    assert_eq!(Traversal::parse(">12>").unwrap_err(), TraversalError::Unparsed { at: 3 });
    assert_eq!(Traversal::parse(">12x>3").unwrap_err(), TraversalError::Unparsed { at: 3 });
    assert_eq!(Traversal::parse(">1<2 ").unwrap_err(), TraversalError::Unparsed { at: 4 });
    assert_eq!(Traversal::parse(">1>>2").unwrap_err(), TraversalError::Unparsed { at: 2 });
    assert_eq!(Traversal::parse(">1\u{e9}").unwrap_err(), TraversalError::Unparsed { at: 2 });
}

#[test]
fn interior_leaves_the_anchors_out() {
    let t = Traversal::parse(">1>2>3>4").unwrap();
    assert_eq!(t.interior_nodes(), vec![b"2".to_vec(), b"3".to_vec()]);
    let anchors_only = Traversal::parse(">1>4").unwrap();
    assert!(anchors_only.interior_nodes().is_empty());
    let lone = Traversal::parse(">1").unwrap();
    assert!(lone.interior_nodes().is_empty());
    let none = Traversal { nodes: Vec::new() };
    assert!(none.interior_nodes().is_empty());
}

#[test]
fn a_traversal_has_an_id_for_every_sign() {
    for text in [">1", ">1<2", "<10>200<3000>4", ">0>0>0>0>0"] {
        let signs = text.bytes().filter(|b| *b == b'>' || *b == b'<').count();
        assert_eq!(Traversal::parse(text).unwrap().nodes.len(), signs);
    }
}
