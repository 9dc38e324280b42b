//! The store as a GML document: the text that is handed to the layout.

use crate::gfa::{GFAGraph, GraphView, NodeData, NodeView, Provenance};
use vstd::prelude::*;
use vstd::string::StringExecFns;
use vstd::utf8::{decode_utf8, valid_utf8};

verus! {

/// What `String::from_utf8_lossy` makes of the bytes: their text, with the
/// replacement character for what is not UTF-8.
pub uninterp spec fn utf8_lossy(bytes: Seq<u8>) -> Seq<char>;

/// The label of a node with this id: the text that the id encodes where it
/// is UTF-8, and what `utf8_lossy` makes of it where it is not.
pub open spec fn label_text(id: Seq<u8>) -> Seq<char> {
    if valid_utf8(id) {
        decode_utf8(id)
    } else {
        utf8_lossy(id)
    }
}

/// `String::from_utf8_lossy`, as an owned string. Bytes that are UTF-8 come
/// back as the text that they encode.
#[verifier::external_body]
fn lossy_text(bytes: &[u8]) -> (text: String)
    ensures
        text@ == utf8_lossy(bytes@),
        valid_utf8(bytes@) ==> text@ == decode_utf8(bytes@),
{
    String::from_utf8_lossy(bytes).into_owned()
}

/// The numeral of a digit.
pub open spec fn digit_text(d: nat) -> Seq<char> {
    if d == 0 {
        "0"@
    } else if d == 1 {
        "1"@
    } else if d == 2 {
        "2"@
    } else if d == 3 {
        "3"@
    } else if d == 4 {
        "4"@
    } else if d == 5 {
        "5"@
    } else if d == 6 {
        "6"@
    } else if d == 7 {
        "7"@
    } else if d == 8 {
        "8"@
    } else {
        "9"@
    }
}

/// A number in decimal, without leading zeros.
pub open spec fn decimal_text(n: nat) -> Seq<char>
    decreases n,
{
    if n < 10 {
        digit_text(n)
    } else {
        decimal_text(n / 10) + digit_text(n % 10)
    }
}

/// The word for a tag: `REF`, `ALT`, or nothing.
pub open spec fn status_text(status: Provenance) -> Seq<char> {
    match status {
        Provenance::Reference => "REF"@,
        Provenance::Alternate => "ALT"@,
        Provenance::Unspecified => ""@,
    }
}

/// The record of the node in a slot.
pub open spec fn node_text(slot: nat, node: NodeView) -> Seq<char> {
    "\tnode [\n\t\tid "@ + decimal_text(slot) + "\n\t\tlabel \""@ + label_text(node.id)
        + "\"\n\t\tsequence \""@ + node.sequence + "\"\n\t\tstatus \""@ + status_text(node.status)
        + "\"\n\t]\n"@
}

/// The records of the nodes, by slot.
pub open spec fn nodes_text(nodes: Seq<NodeView>) -> Seq<char>
    decreases nodes.len(),
{
    if nodes.len() == 0 {
        Seq::empty()
    } else {
        nodes_text(nodes.drop_last()) + node_text((nodes.len() - 1) as nat, nodes.last())
    }
}

/// The record of an edge.
pub open spec fn edge_text(edge: (int, int)) -> Seq<char> {
    "\tedge [\n\t\tsource "@ + decimal_text(edge.0 as nat) + "\n\t\ttarget "@ + decimal_text(edge.1 as nat)
        + "\n\t]\n"@
}

/// The records of the edges, in their order.
pub open spec fn edges_text(edges: Seq<(int, int)>) -> Seq<char>
    decreases edges.len(),
{
    if edges.len() == 0 {
        Seq::empty()
    } else {
        edges_text(edges.drop_last()) + edge_text(edges.last())
    }
}

/// The GML document of a graph: a record for every node, then one for every
/// edge.
pub open spec fn gml_text(g: GraphView) -> Seq<char> {
    "graph [\n"@ + nodes_text(g.nodes) + edges_text(g.edges) + "]\n"@
}

/// The numeral of a digit.
fn digit_str(d: usize) -> (text: &'static str)
    requires
        d < 10,
    ensures
        text@ == digit_text(d as nat),
{
    if d == 0 {
        "0"
    } else if d == 1 {
        "1"
    } else if d == 2 {
        "2"
    } else if d == 3 {
        "3"
    } else if d == 4 {
        "4"
    } else if d == 5 {
        "5"
    } else if d == 6 {
        "6"
    } else if d == 7 {
        "7"
    } else if d == 8 {
        "8"
    } else {
        "9"
    }
}

/// Writes a number in decimal.
pub fn decimal(n: u64) -> (text: String)
    ensures
        text@ == decimal_text(n as nat),
    decreases n,
{
    if n < 10 {
        String::from_str(digit_str(n as usize))
    } else {
        let mut text = decimal(n / 10);
        text.append(digit_str((n % 10) as usize));
        text
    }
}

/// A number in decimal, with a minus sign where it is negative.
pub open spec fn signed_text(n: int) -> Seq<char> {
    if n < 0 {
        "-"@ + decimal_text((-n) as nat)
    } else {
        decimal_text(n as nat)
    }
}

/// Writes a number in decimal, with its sign.
pub fn signed_decimal(n: i64) -> (text: String)
    ensures
        text@ == signed_text(n as int),
{
    if n < 0 {
        let mut text = String::from_str("-");
        let size: u64 = if n == i64::MIN {
            0x8000_0000_0000_0000u64
        } else {
            (-n) as u64
        };
        text.append(decimal(size).as_str());
        text
    } else {
        decimal(n as u64)
    }
}

/// The word for a tag.
pub fn status_str(status: Provenance) -> (text: &'static str)
    ensures
        text@ == status_text(status),
{
    match status {
        Provenance::Reference => "REF",
        Provenance::Alternate => "ALT",
        Provenance::Unspecified => "",
    }
}

/// Writes the record of a node.
fn write_node(slot: usize, node: &NodeData) -> (text: String)
    ensures
        text@ == node_text(slot as nat, node@),
{
    let mut text = String::from_str("\tnode [\n\t\tid ");
    text.append(decimal(slot as u64).as_str());
    text.append("\n\t\tlabel \"");
    text.append(lossy_text(node.id.as_slice()).as_str());
    text.append("\"\n\t\tsequence \"");
    text.append(node.sequence.as_str());
    text.append("\"\n\t\tstatus \"");
    text.append(status_str(node.status));
    text.append("\"\n\t]\n");
    text
}

/// Writes the record of an edge.
fn write_edge(source: usize, target: usize) -> (text: String)
    ensures
        text@ == edge_text((source as int, target as int)),
{
    let mut text = String::from_str("\tedge [\n\t\tsource ");
    text.append(decimal(source as u64).as_str());
    text.append("\n\t\ttarget ");
    text.append(decimal(target as u64).as_str());
    text.append("\n\t]\n");
    text
}

impl GFAGraph {
    /// The store as a GML document. Every node's record gives its slot as
    /// `id`, its id as `label`, its sequence and its tag; every edge's record
    /// gives the two slots, lower slot first. The store keeps each edge
    /// once, and so does the document.
    pub fn to_gml_string(&self) -> (text: String)
        requires
            self.wf(),
        ensures
            text@ == gml_text(self@),
    {
        let mut text = String::from_str("graph [\n");
        let n = self.node_count();
        let mut i: usize = 0;
        while i < n
            invariant
                self.wf(),
                n == self@.nodes.len(),
                i <= n,
                text@ == "graph [\n"@ + nodes_text(self@.nodes.subrange(0, i as int)),
            decreases n - i,
        {
            match self.get_node_data(i) {
                Some(node) => {
                    let record = write_node(i, node);
                    text.append(record.as_str());
                    proof {
                        let upto = self@.nodes.subrange(0, i + 1);
                        assert(upto.drop_last() == self@.nodes.subrange(0, i as int));
                        assert(upto.last() == self@.nodes[i as int]);
                        assert(text@ =~= "graph [\n"@ + nodes_text(upto));
                    }
                },
                None => {},
            }
            i += 1;
        }
        assert(self@.nodes.subrange(0, n as int) == self@.nodes);
        let edges = self.edges();
        let ghost head = text@;
        let ghost pairs = self@.edges;
        let mut k: usize = 0;
        while k < edges.len()
            invariant
                pairs == self@.edges,
                edges@.map_values(|e: (usize, usize)| (e.0 as int, e.1 as int)) == pairs,
                k <= edges.len(),
                edges.len() == pairs.len(),
                text@ == head + edges_text(pairs.subrange(0, k as int)),
            decreases edges.len() - k,
        {
            let (source, target) = edges[k];
            let record = write_edge(source, target);
            text.append(record.as_str());
            proof {
                assert(pairs[k as int] == (source as int, target as int));
                let upto = pairs.subrange(0, k + 1);
                assert(upto.drop_last() == pairs.subrange(0, k as int));
                assert(upto.last() == pairs[k as int]);
                assert(text@ =~= head + edges_text(upto));
            }
            k += 1;
        }
        assert(pairs.subrange(0, pairs.len() as int) == pairs);
        text.append("]\n");
        text
    }
}

} // verus!
