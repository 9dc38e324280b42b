//! The chart of a laid-out graph: every node with its position, its name and
//! what is known of it, and the links between the nodes.

use crate::export::{signed_decimal, signed_text};
use crate::gml::{graphic_pos, text_under, Edge, GMLGraph, Node};
use vstd::prelude::*;

verus! {

/// What the chart shows of a node beside its name.
#[derive(Debug, Clone, PartialEq, Eq)]
pub struct MyAttr {
    pub sequence: String,
    pub status: String,
}

impl MyAttr {
    pub fn new(sequence: String, status: String) -> (attr: MyAttr)
        ensures
            attr.sequence == sequence,
            attr.status == status,
    {
        MyAttr { sequence, status }
    }
}

impl Default for MyAttr {
    fn default() -> (attr: MyAttr)
        ensures
            attr.sequence@ == Seq::<char>::empty(),
            attr.status@ == Seq::<char>::empty(),
    {
        MyAttr { sequence: String::new(), status: String::new() }
    }
}

/// A node of the chart. The two coordinates are numbers as the layout wrote
/// them; one that the layout left out is `None` and stands for zero.
#[derive(Debug, Clone, PartialEq, Eq)]
pub struct EchartNode {
    pub id: i64,
    pub x: Option<String>,
    pub y: Option<String>,
    pub name: String,
    pub value: MyAttr,
}

/// A link of the chart, by the ids of its two nodes.
#[derive(Debug, Clone, Copy, PartialEq, Eq, Structural)]
pub struct EchartLink {
    pub source: i64,
    pub target: i64,
}

/// The chart.
#[derive(Debug, Clone, PartialEq, Eq)]
pub struct EchartGraph {
    pub nodes: Vec<EchartNode>,
    pub links: Vec<EchartLink>,
}

/// Why a layout cannot be annotated from the graph that it was made for.
#[derive(Debug, Clone, Copy, PartialEq, Eq, Structural)]
pub enum EchartError {
    /// The layout has more nodes than the graph.
    NodeMissing { index: usize },
    /// A node of the graph has no label.
    LabelMissing { index: usize },
}

/// Whether the node at an index of the graph can name a node of the layout.
pub open spec fn named(origin: GMLGraph, i: int) -> bool {
    0 <= i < origin.nodes@.len() && origin.nodes@[i].label is Some
}

/// The text of an optional string; nothing for `None`.
pub open spec fn text_or_empty(text: Option<String>) -> Seq<char> {
    match text {
        Some(t) => t@,
        None => Seq::empty(),
    }
}

/// Whether the links are the edges, one for one.
pub open spec fn links_follow(links: Seq<EchartLink>, edges: Seq<Edge>) -> bool {
    &&& links.len() == edges.len()
    &&& forall|k: int|
        0 <= k < links.len() ==> (#[trigger] links[k]) == (EchartLink {
            source: edges[k].source,
            target: edges[k].target,
        })
}

/// Copies the position of a node.
fn position_of(node: &Node) -> (pos: (Option<String>, Option<String>))
    ensures
        pos == graphic_pos(node.attrs@),
{
    let (x, y) = node.get_graphic_pos();
    let x = match x {
        Some(text) => Some(text.clone()),
        None => None,
    };
    let y = match y {
        Some(text) => Some(text.clone()),
        None => None,
    };
    (x, y)
}

/// The text under a key of a node, or nothing.
fn text_of(node: &Node, name: &str) -> (text: String)
    ensures
        text@ == text_or_empty(text_under(node.attrs@, name@)),
{
    match node.get_text(name) {
        Some(text) => text.clone(),
        None => String::new(),
    }
}

/// The links of a graph's edges.
fn links_of(edges: &Vec<Edge>) -> (links: Vec<EchartLink>)
    ensures
        links_follow(links@, edges@),
{
    let mut links: Vec<EchartLink> = Vec::new();
    let mut k: usize = 0;
    while k < edges.len()
        invariant
            k <= edges.len(),
            links@.len() == k,
            forall|j: int|
                0 <= j < k ==> (#[trigger] links@[j]) == (EchartLink {
                    source: edges@[j].source,
                    target: edges@[j].target,
                }),
        decreases edges.len() - k,
    {
        links.push(EchartLink { source: edges[k].source, target: edges[k].target });
        k += 1;
    }
    links
}

impl EchartGraph {
    /// The chart of a laid-out graph alone: every node under its id as name,
    /// with nothing known of it.
    pub fn from_gml(layout_graph: GMLGraph) -> (chart: EchartGraph)
        ensures
            chart.nodes@.len() == layout_graph.nodes@.len(),
            forall|i: int|
                0 <= i < chart.nodes@.len() ==> {
                    let node = #[trigger] chart.nodes@[i];
                    let from = layout_graph.nodes@[i];
                    &&& node.id == from.id
                    &&& (node.x, node.y) == graphic_pos(from.attrs@)
                    &&& node.name@ == signed_text(from.id as int)
                    &&& node.value.sequence@ == Seq::<char>::empty()
                    &&& node.value.status@ == Seq::<char>::empty()
                },
            links_follow(chart.links@, layout_graph.edges@),
    {
        let mut nodes: Vec<EchartNode> = Vec::new();
        let mut i: usize = 0;
        while i < layout_graph.nodes.len()
            invariant
                i <= layout_graph.nodes.len(),
                nodes@.len() == i,
                forall|j: int|
                    0 <= j < i ==> {
                        let node = #[trigger] nodes@[j];
                        let from = layout_graph.nodes@[j];
                        &&& node.id == from.id
                        &&& (node.x, node.y) == graphic_pos(from.attrs@)
                        &&& node.name@ == signed_text(from.id as int)
                        &&& node.value.sequence@ == Seq::<char>::empty()
                        &&& node.value.status@ == Seq::<char>::empty()
                    },
            decreases layout_graph.nodes.len() - i,
        {
            let from = &layout_graph.nodes[i];
            let (x, y) = position_of(from);
            nodes.push(EchartNode { id: from.id, x, y, name: signed_decimal(from.id), value: MyAttr::default() });
            i += 1;
        }
        let links = links_of(&layout_graph.edges);
        EchartGraph { nodes, links }
    }

    /// The chart of a laid-out graph, annotated from the graph that the
    /// layout was made for. The two list their nodes in the same order: the
    /// node at an index of the chart has its id and position from the layout
    /// and its name, sequence and status from the graph. It fails at the
    /// first node of the layout for which the graph has no node or no label.
    pub fn from_gml_anno(layout_g: GMLGraph, origin_g: GMLGraph) -> (made: Result<EchartGraph, EchartError>)
        ensures
            match made {
                Ok(chart) => {
                    &&& chart.nodes@.len() == layout_g.nodes@.len()
                    &&& forall|i: int|
                        0 <= i < chart.nodes@.len() ==> {
                            let node = #[trigger] chart.nodes@[i];
                            let from = layout_g.nodes@[i];
                            &&& named(origin_g, i)
                            &&& node.id == from.id
                            &&& (node.x, node.y) == graphic_pos(from.attrs@)
                            &&& Some(node.name) == origin_g.nodes@[i].label
                            &&& node.value.sequence@ == text_or_empty(
                                text_under(origin_g.nodes@[i].attrs@, "sequence"@),
                            )
                            &&& node.value.status@ == text_or_empty(
                                text_under(origin_g.nodes@[i].attrs@, "status"@),
                            )
                        }
                    &&& links_follow(chart.links@, layout_g.edges@)
                },
                Err(EchartError::NodeMissing { index }) => {
                    &&& index < layout_g.nodes@.len()
                    &&& index == origin_g.nodes@.len()
                    &&& forall|i: int| 0 <= i < index ==> named(origin_g, i)
                },
                Err(EchartError::LabelMissing { index }) => {
                    &&& index < layout_g.nodes@.len()
                    &&& index < origin_g.nodes@.len()
                    &&& origin_g.nodes@[index as int].label is None
                    &&& forall|i: int| 0 <= i < index ==> named(origin_g, i)
                },
            },
    {
        let mut nodes: Vec<EchartNode> = Vec::new();
        let mut i: usize = 0;
        while i < layout_g.nodes.len()
            invariant
                i <= layout_g.nodes.len(),
                i <= origin_g.nodes.len(),
                nodes@.len() == i,
                forall|j: int|
                    0 <= j < i ==> {
                        let node = #[trigger] nodes@[j];
                        let from = layout_g.nodes@[j];
                        &&& named(origin_g, j)
                        &&& node.id == from.id
                        &&& (node.x, node.y) == graphic_pos(from.attrs@)
                        &&& Some(node.name) == origin_g.nodes@[j].label
                        &&& node.value.sequence@ == text_or_empty(
                            text_under(origin_g.nodes@[j].attrs@, "sequence"@),
                        )
                        &&& node.value.status@ == text_or_empty(text_under(origin_g.nodes@[j].attrs@, "status"@))
                    },
            decreases layout_g.nodes.len() - i,
        {
            if i >= origin_g.nodes.len() {
                assert forall|j: int| 0 <= j < i implies named(origin_g, j) by {
                    let node = nodes@[j];
                }
                return Err(EchartError::NodeMissing { index: i });
            }
            let from = &layout_g.nodes[i];
            let origin = &origin_g.nodes[i];
            let name = match &origin.label {
                Some(label) => label.clone(),
                None => {
                    assert forall|j: int| 0 <= j < i implies named(origin_g, j) by {
                        let node = nodes@[j];
                    }
                    return Err(EchartError::LabelMissing { index: i });
                },
            };
            let (x, y) = position_of(from);
            let value = MyAttr::new(text_of(origin, "sequence"), text_of(origin, "status"));
            nodes.push(EchartNode { id: from.id, x, y, name, value });
            i += 1;
        }
        let links = links_of(&layout_g.edges);
        Ok(EchartGraph { nodes, links })
    }
}

} // verus!
