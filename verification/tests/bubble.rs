use fm3_gfa::ident::{hash_id, rank, same_bytes, same_text, Rank};
use fm3_gfa::vcf::{BubbleVariant, Traversal, TraversalError};

fn path(ids: &[&str]) -> Traversal {
    Traversal { nodes: ids.iter().map(|s| s.as_bytes().to_vec()).collect() }
}

#[test]
fn new_bubble_keeps_its_parts() {
    let b = BubbleVariant::new("v1".to_string(), 77, vec![path(&["1", "2"]), path(&["1", "3", "2"])]).unwrap();
    assert_eq!(b.id, "v1");
    assert_eq!(b.pos, 77);
    assert_eq!(b.allele_traversal.len(), 2);
    assert_eq!(b.allele_traversal[1].nodes, path(&["1", "3", "2"]).nodes);
    assert!(BubbleVariant::new(String::new(), 0, Vec::new()).is_ok());
}

#[test]
fn ref_and_alt_nodes_are_the_interiors() {
    let b = BubbleVariant::new(
        "v".to_string(),
        1,
        vec![path(&["10", "11", "12", "13"]), path(&["10", "21", "13"]), path(&["10", "31", "32", "13"])],
    )
    .unwrap();
    assert_eq!(b.get_ref_nodes(), vec![b"11".to_vec(), b"12".to_vec()]);
    assert_eq!(b.get_alt_nodes(), vec![b"21".to_vec()]);
}

#[test]
fn all_nodes_are_sorted_and_unique() {
    let b = BubbleVariant::new(
        "v".to_string(),
        1,
        vec![path(&["10", "9", "100", "13"]), path(&["10", "2", "13"]), path(&["10", "", "1", "13", "9"])],
    )
    .unwrap();
    let want: Vec<Vec<u8>> = ["", "1", "10", "100", "13", "2", "9"].iter().map(|s| s.as_bytes().to_vec()).collect();
    assert_eq!(b.get_all_nodes(), want);
    let none = BubbleVariant::new("v".to_string(), 1, vec![]).unwrap();
    assert!(none.get_all_nodes().is_empty());
}

#[test]
fn all_nodes_sort_as_byte_strings_do() {
    let ids: Vec<Vec<u8>> = vec![vec![0xff], vec![0x00, 0x01], vec![0x00], vec![], vec![0x7f, 0x80], vec![0x7f], vec![0xff, 0x00]];
    let b = BubbleVariant::new("v".to_string(), 1, vec![Traversal { nodes: ids.clone() }, Traversal { nodes: ids.clone() }])
        .unwrap();
    let mut want = ids;
    want.sort();
    want.dedup();
    assert_eq!(b.get_all_nodes(), want);
}

#[test]
fn byte_strings_compare() {
    assert!(same_bytes(b"", b""));
    assert!(same_bytes(b"abc", b"abc"));
    assert!(!same_bytes(b"abc", b"abd"));
    assert!(!same_bytes(b"abc", b"ab"));
    assert!(same_text("graph", "graph"));
    assert!(!same_text("graph", "Graph"));
    assert!(same_text("\u{e9}", "\u{e9}"));
    assert_eq!(rank(b"a", b"b"), Rank::Before);
    assert_eq!(rank(b"b", b"a"), Rank::After);
    assert_eq!(rank(b"a", b"a"), Rank::Same);
    assert_eq!(rank(b"a", b"ab"), Rank::Before);
    assert_eq!(rank(b"ab", b"a"), Rank::After);
    assert_eq!(rank(b"", b""), Rank::Same);
    assert_eq!(rank(b"", b"\x00"), Rank::Before);
    assert_eq!(rank(b"10", b"9"), Rank::Before);
}

#[test]
fn hash_is_fnv_1a() {
    assert_eq!(hash_id(b""), 0xcbf29ce484222325);
    assert_eq!(hash_id(b"a"), 0xaf63dc4c8601ec8c);
    assert_eq!(hash_id(b"foobar"), 0x85944171f73967e8);
}

#[test]
fn bubble_from_the_texts_of_its_alleles() {
    let texts = vec![">1>2>4".to_string(), ">1<3>4".to_string(), ">1>4".to_string()];
    let b = BubbleVariant::from_texts("v7".to_string(), 1234, &texts).unwrap();
    assert_eq!(b.id, "v7");
    assert_eq!(b.pos, 1234);
    assert_eq!(b.allele_traversal.len(), 3);
    assert_eq!(b.allele_traversal[0].nodes, path(&["1", "2", "4"]).nodes);
    assert_eq!(b.allele_traversal[1].nodes, path(&["1", "3", "4"]).nodes);
    assert_eq!(b.allele_traversal[2].nodes, path(&["1", "4"]).nodes);
    let none = BubbleVariant::from_texts("v".to_string(), 0, &Vec::new()).unwrap();
    assert!(none.allele_traversal.is_empty());
}

#[test]
fn bubble_from_texts_fails_at_the_first_bad_text() {
    let texts = vec![">1>2".to_string(), ">1>2,".to_string(), "x".to_string()];
    assert_eq!(
        BubbleVariant::from_texts("v".to_string(), 0, &texts).unwrap_err(),
        (1, TraversalError::Unparsed { at: 4 })
    );
    let texts = vec!["".to_string(), ">1>2,".to_string()];
    assert_eq!(BubbleVariant::from_texts("v".to_string(), 0, &texts).unwrap_err(), (0, TraversalError::NoStep));
}
