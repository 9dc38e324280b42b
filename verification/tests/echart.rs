use fm3_gfa::echart::{EchartError, EchartGraph, EchartLink, MyAttr};
use fm3_gfa::gml::{GMLGraph, GMLObject};

fn graph(text: &str) -> GMLGraph {
    GMLGraph::from_gml(GMLObject::from_text(text).unwrap()).unwrap()
}

#[test]
fn attr_keeps_its_parts() {
    let a = MyAttr::new("ACGT".to_string(), "REF".to_string());
    assert_eq!(a.sequence, "ACGT");
    assert_eq!(a.status, "REF");
    let d = MyAttr::default();
    assert_eq!(d.sequence, "");
    assert_eq!(d.status, "");
}

#[test]
fn chart_of_a_layout_alone() {
    let layout = graph(
        "graph [ node [ id 0 graphics [ x 1.5 y -2.25 w 0.0 ] ] node [ id -12 ] edge [ source 0 target -12 ] edge [ source 0 target 0 ] ]",
    );
    let chart = EchartGraph::from_gml(layout);
    assert_eq!(chart.nodes.len(), 2);
    let first = chart.nodes.iter().find(|n| n.id == 0).unwrap();
    assert_eq!(first.name, "0");
    assert_eq!(first.x, Some("1.5".to_string()));
    assert_eq!(first.y, Some("-2.25".to_string()));
    assert_eq!(first.value, MyAttr::default());
    let second = chart.nodes.iter().find(|n| n.id == -12).unwrap();
    assert_eq!(second.name, "-12");
    assert_eq!(second.x, None);
    assert_eq!(second.y, None);
    // Taking the two nodes out of the list has moved the last edge to the
    // front.
    assert_eq!(
        chart.links,
        vec![EchartLink { source: 0, target: 0 }, EchartLink { source: 0, target: -12 }]
    );
}

#[test]
fn chart_annotated_from_the_graph() {
    let origin = graph(
        "graph [ node [ id 0 label \"s1\" sequence \"ACGT\" status \"REF\" ] node [ id 1 label \"s2\" sequence \"G\" status \"ALT\" ] edge [ source 0 target 1 ] ]",
    );
    let layout = graph(
        "graph [ node [ id 0 graphics [ x 10.0 y 20.0 ] ] node [ id 1 graphics [ x 30.0 y 40.0 ] ] edge [ source 0 target 1 ] ]",
    );
    let chart = EchartGraph::from_gml_anno(layout, origin).unwrap();
    assert_eq!(chart.nodes.len(), 2);
    assert_eq!(chart.nodes[0].id, 0);
    assert_eq!(chart.nodes[0].name, "s1");
    assert_eq!(chart.nodes[0].x, Some("10.0".to_string()));
    assert_eq!(chart.nodes[0].y, Some("20.0".to_string()));
    assert_eq!(chart.nodes[0].value, MyAttr::new("ACGT".to_string(), "REF".to_string()));
    assert_eq!(chart.nodes[1].id, 1);
    assert_eq!(chart.nodes[1].name, "s2");
    assert_eq!(chart.nodes[1].value, MyAttr::new("G".to_string(), "ALT".to_string()));
    assert_eq!(chart.links, vec![EchartLink { source: 0, target: 1 }]);
}

#[test]
fn annotation_falls_back_to_empty_text() {
    let origin = graph("graph [ node [ id 0 label \"s1\" sequence 5 ] ]");
    let layout = graph("graph [ node [ id 0 ] ]");
    let chart = EchartGraph::from_gml_anno(layout, origin).unwrap();
    assert_eq!(chart.nodes[0].value, MyAttr::default());
    assert_eq!(chart.nodes[0].x, None);
}

#[test]
fn annotation_needs_a_labelled_node_for_every_node_of_the_layout() {
    let layout = || graph("graph [ node [ id 0 ] node [ id 1 ] ]");
    let short = graph("graph [ node [ id 0 label \"a\" ] ]");
    assert_eq!(EchartGraph::from_gml_anno(layout(), short), Err(EchartError::NodeMissing { index: 1 }));
    let empty = graph("graph [ ]");
    assert_eq!(EchartGraph::from_gml_anno(layout(), empty), Err(EchartError::NodeMissing { index: 0 }));
    let unlabelled = graph("graph [ node [ id 1 ] node [ id 0 label \"a\" ] ]");
    assert_eq!(EchartGraph::from_gml_anno(layout(), unlabelled), Err(EchartError::LabelMissing { index: 0 }));
    // More nodes in the graph than in the layout do no harm.
    let longer = graph("graph [ node [ id 0 label \"a\" ] node [ id 1 label \"b\" ] node [ id 2 ] ]");
    assert_eq!(EchartGraph::from_gml_anno(graph("graph [ node [ id 0 ] ]"), longer).unwrap().nodes.len(), 1);
}
