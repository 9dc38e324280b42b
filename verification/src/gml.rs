//! Graphs in the Graph Modelling Language: a document is a list of keyed
//! values, a value being text, a number or a list again. This file holds the
//! documents and what is read out of them: graphs, nodes and edges.

use crate::ident::same_text;
use vstd::prelude::*;

verus! {

/// What can be wrong with a text that should hold a graph.
#[derive(Debug, Clone, Copy, PartialEq, Eq, Structural)]
pub enum GMLFault {
    /// The text is no document.
    Syntax,
    /// The document has no `graph`.
    NoGraph,
    /// `graph` is not a list.
    GraphNotObject,
    /// The graph's `id` is not an integer.
    GraphId,
    /// The graph's `directed` is not an integer.
    GraphDirected,
    /// A `label` is not text.
    Label,
    /// A `node` is not a list.
    NodeNotObject,
    /// An `edge` is not a list.
    EdgeNotObject,
    /// A node has no `id`.
    NoNodeId,
    /// A node's `id` is not an integer.
    NodeId,
    /// An edge has no `source`.
    NoSource,
    /// An edge's `source` is not an integer.
    Source,
    /// An edge has no `target`.
    NoTarget,
    /// An edge's `target` is not an integer.
    Target,
}

/// The error of reading a graph out of a document.
#[derive(Debug, Clone, Copy, PartialEq, Eq, Structural)]
pub struct GMLError(pub GMLFault);

/// A list of keyed values, in the order of the document.
#[derive(Debug, PartialEq)]
pub struct GMLObject {
    pub pairs: Vec<(String, GMLValue)>,
}

/// A value of a document. A number that is no 64-bit integer is kept as it
/// was written.
#[derive(Debug, PartialEq)]
pub enum GMLValue {
    GMLString(String),
    GMLInt(i64),
    GMLFloat(String),
    GMLObject(Box<GMLObject>),
}

/// Whether the entry at `i` is the first under the key `name`.
pub open spec fn is_first(attrs: Seq<(String, GMLValue)>, name: Seq<char>, i: int) -> bool {
    &&& 0 <= i < attrs.len()
    &&& attrs[i].0@ == name
    &&& forall|j: int| 0 <= j < i ==> (#[trigger] attrs[j]).0@ != name
}

/// Whether an entry stands under the key `name`.
pub open spec fn has_key(attrs: Seq<(String, GMLValue)>, name: Seq<char>) -> bool {
    exists|i: int| #[trigger] is_first(attrs, name, i)
}

/// The index of the first entry under the key `name`.
pub open spec fn first_key(attrs: Seq<(String, GMLValue)>, name: Seq<char>) -> int {
    choose|i: int| #[trigger] is_first(attrs, name, i)
}

/// The list without the entry at `i`: the last entry takes its place.
pub open spec fn without(attrs: Seq<(String, GMLValue)>, i: int) -> Seq<(String, GMLValue)> {
    attrs.update(i, attrs.last()).drop_last()
}

/// At most one index is the first under a key.
pub proof fn lemma_first_key(attrs: Seq<(String, GMLValue)>, name: Seq<char>, i: int)
    requires
        is_first(attrs, name, i),
    ensures
        has_key(attrs, name),
        first_key(attrs, name) == i,
{
    let j = first_key(attrs, name);
    assert(is_first(attrs, name, j));
    if j < i {
        assert(attrs[j].0@ != name);
    } else if i < j {
        assert(attrs[i].0@ != name);
    }
}

/// Finds the first entry under a key.
fn find_attribute(attrs: &[(String, GMLValue)], name: &str) -> (at: Option<usize>)
    ensures
        match at {
            Some(i) => has_key(attrs@, name@) && i == first_key(attrs@, name@),
            None => !has_key(attrs@, name@),
        },
{
    let mut i: usize = 0;
    while i < attrs.len()
        invariant
            i <= attrs.len(),
            forall|j: int| 0 <= j < i ==> (#[trigger] attrs@[j]).0@ != name@,
        decreases attrs.len() - i,
    {
        if same_text(attrs[i].0.as_str(), name) {
            proof {
                lemma_first_key(attrs@, name@, i as int);
            }
            return Some(i);
        }
        i += 1;
    }
    assert forall|k: int| !#[trigger] is_first(attrs@, name@, k) by {
        if 0 <= k < attrs@.len() {
            assert(attrs@[k].0@ != name@);
        }
    }
    None
}

/// Takes the first entry under a key out of the list; the last entry takes
/// its place.
pub fn int_take_attribute(attrs: &mut Vec<(String, GMLValue)>, name: &str) -> (taken: Option<(String, GMLValue)>)
    ensures
        match taken {
            Some(entry) => {
                &&& has_key(old(attrs)@, name@)
                &&& entry == old(attrs)@[first_key(old(attrs)@, name@)]
                &&& final(attrs)@ == without(old(attrs)@, first_key(old(attrs)@, name@))
            },
            None => !has_key(old(attrs)@, name@) && final(attrs)@ == old(attrs)@,
        },
{
    match find_attribute(attrs.as_slice(), name) {
        Some(i) => Some(attrs.swap_remove(i)),
        None => None,
    }
}

/// The first entry under a key.
pub fn int_get_attribute<'a>(attrs: &'a [(String, GMLValue)], name: &str) -> (found: Option<&'a (String, GMLValue)>)
    ensures
        match found {
            Some(entry) => has_key(attrs@, name@) && *entry == attrs@[first_key(attrs@, name@)],
            None => !has_key(attrs@, name@),
        },
{
    match find_attribute(attrs, name) {
        Some(i) => Some(&attrs[i]),
        None => None,
    }
}

/// A node of a graph: its id, its label where it has one, and what else its
/// list held.
#[derive(Debug, PartialEq)]
pub struct Node {
    pub id: i64,
    pub label: Option<String>,
    pub attrs: Vec<(String, GMLValue)>,
}

/// An edge of a graph: the ids of its two nodes, its label where it has one,
/// and what else its list held.
#[derive(Debug, PartialEq)]
pub struct Edge {
    pub source: i64,
    pub target: i64,
    pub label: Option<String>,
    pub attrs: Vec<(String, GMLValue)>,
}

/// A graph: what its list says of the graph itself, its nodes and edges, and
/// what else the list held.
#[derive(Debug)]
pub struct GMLGraph {
    pub directed: Option<bool>,
    pub id: Option<i64>,
    pub label: Option<String>,
    pub nodes: Vec<Node>,
    pub edges: Vec<Edge>,
    pub attrs: Vec<(String, GMLValue)>,
}

/// A node as contracts see it.
pub struct NodeModel {
    pub id: i64,
    pub label: Option<String>,
    pub attrs: Seq<(String, GMLValue)>,
}

/// An edge as contracts see it.
pub struct EdgeModel {
    pub source: i64,
    pub target: i64,
    pub label: Option<String>,
    pub attrs: Seq<(String, GMLValue)>,
}

/// A graph as contracts see it.
pub struct GraphModel {
    pub directed: Option<bool>,
    pub id: Option<i64>,
    pub label: Option<String>,
    pub nodes: Seq<NodeModel>,
    pub edges: Seq<EdgeModel>,
    pub attrs: Seq<(String, GMLValue)>,
}

impl View for Node {
    type V = NodeModel;

    open spec fn view(&self) -> NodeModel {
        NodeModel { id: self.id, label: self.label, attrs: self.attrs@ }
    }
}

impl View for Edge {
    type V = EdgeModel;

    open spec fn view(&self) -> EdgeModel {
        EdgeModel { source: self.source, target: self.target, label: self.label, attrs: self.attrs@ }
    }
}

impl View for GMLGraph {
    type V = GraphModel;

    open spec fn view(&self) -> GraphModel {
        GraphModel {
            directed: self.directed,
            id: self.id,
            label: self.label,
            nodes: self.nodes@.map_values(|n: Node| n@),
            edges: self.edges@.map_values(|e: Edge| e@),
            attrs: self.attrs@,
        }
    }
}

/// The integer under a key that must be there, and the list without it.
pub open spec fn needed_int(attrs: Seq<(String, GMLValue)>, name: Seq<char>, missing: GMLFault, wrong: GMLFault) -> Result<
    (i64, Seq<(String, GMLValue)>),
    GMLError,
> {
    if has_key(attrs, name) {
        match attrs[first_key(attrs, name)].1 {
            GMLValue::GMLInt(n) => Ok((n, without(attrs, first_key(attrs, name)))),
            _ => Err(GMLError(wrong)),
        }
    } else {
        Err(GMLError(missing))
    }
}

/// The integer under a key that may be there, and the list without it.
pub open spec fn optional_int(attrs: Seq<(String, GMLValue)>, name: Seq<char>, wrong: GMLFault) -> Result<
    (Option<i64>, Seq<(String, GMLValue)>),
    GMLError,
> {
    if has_key(attrs, name) {
        match attrs[first_key(attrs, name)].1 {
            GMLValue::GMLInt(n) => Ok((Some(n), without(attrs, first_key(attrs, name)))),
            _ => Err(GMLError(wrong)),
        }
    } else {
        Ok((None, attrs))
    }
}

/// The text under `label`, where there is one, and the list without it.
pub open spec fn optional_label(attrs: Seq<(String, GMLValue)>) -> Result<
    (Option<String>, Seq<(String, GMLValue)>),
    GMLError,
> {
    if has_key(attrs, "label"@) {
        match attrs[first_key(attrs, "label"@)].1 {
            GMLValue::GMLString(text) => Ok((Some(text), without(attrs, first_key(attrs, "label"@)))),
            _ => Err(GMLError(GMLFault::Label)),
        }
    } else {
        Ok((None, attrs))
    }
}

/// The node that a list describes.
pub open spec fn node_of(attrs: Seq<(String, GMLValue)>) -> Result<NodeModel, GMLError> {
    match needed_int(attrs, "id"@, GMLFault::NoNodeId, GMLFault::NodeId) {
        Ok((id, rest)) => match optional_label(rest) {
            Ok((label, attrs)) => Ok(NodeModel { id, label, attrs }),
            Err(e) => Err(e),
        },
        Err(e) => Err(e),
    }
}

/// The edge that a list describes.
pub open spec fn edge_of(attrs: Seq<(String, GMLValue)>) -> Result<EdgeModel, GMLError> {
    match needed_int(attrs, "source"@, GMLFault::NoSource, GMLFault::Source) {
        Ok((source, rest)) => match needed_int(rest, "target"@, GMLFault::NoTarget, GMLFault::Target) {
            Ok((target, rest)) => match optional_label(rest) {
                Ok((label, attrs)) => Ok(EdgeModel { source, target, label, attrs }),
                Err(e) => Err(e),
            },
            Err(e) => Err(e),
        },
        Err(e) => Err(e),
    }
}

/// Takes the integer under a key that must be there.
fn take_needed_int(attrs: &mut Vec<(String, GMLValue)>, name: &str, missing: GMLFault, wrong: GMLFault) -> (taken:
    Result<i64, GMLError>)
    ensures
        match taken {
            Ok(n) => needed_int(old(attrs)@, name@, missing, wrong) == Ok::<
                (i64, Seq<(String, GMLValue)>),
                GMLError,
            >((n, final(attrs)@)),
            Err(e) => needed_int(old(attrs)@, name@, missing, wrong) == Err::<
                (i64, Seq<(String, GMLValue)>),
                GMLError,
            >(e),
        },
{
    match int_take_attribute(attrs, name) {
        Some((_, GMLValue::GMLInt(n))) => Ok(n),
        Some(_) => Err(GMLError(wrong)),
        None => Err(GMLError(missing)),
    }
}

/// Takes the integer under a key that may be there.
fn take_optional_int(attrs: &mut Vec<(String, GMLValue)>, name: &str, wrong: GMLFault) -> (taken: Result<
    Option<i64>,
    GMLError,
>)
    ensures
        match taken {
            Ok(n) => optional_int(old(attrs)@, name@, wrong) == Ok::<
                (Option<i64>, Seq<(String, GMLValue)>),
                GMLError,
            >((n, final(attrs)@)),
            Err(e) => optional_int(old(attrs)@, name@, wrong) == Err::<
                (Option<i64>, Seq<(String, GMLValue)>),
                GMLError,
            >(e),
        },
{
    match int_take_attribute(attrs, name) {
        Some((_, GMLValue::GMLInt(n))) => Ok(Some(n)),
        Some(_) => Err(GMLError(wrong)),
        None => Ok(None),
    }
}

/// Takes the text under `label`, where there is one.
fn take_label(attrs: &mut Vec<(String, GMLValue)>) -> (taken: Result<Option<String>, GMLError>)
    ensures
        match taken {
            Ok(label) => optional_label(old(attrs)@) == Ok::<
                (Option<String>, Seq<(String, GMLValue)>),
                GMLError,
            >((label, final(attrs)@)),
            Err(e) => optional_label(old(attrs)@) == Err::<(Option<String>, Seq<(String, GMLValue)>), GMLError>(
                e,
            ),
        },
{
    match int_take_attribute(attrs, "label") {
        Some((_, GMLValue::GMLString(text))) => Ok(Some(text)),
        Some(_) => Err(GMLError(GMLFault::Label)),
        None => Ok(None),
    }
}

impl Node {
    /// Reads a node out of its list: `id` must be an integer, `label` text
    /// where it is there; the rest is kept.
    pub fn from_gml(obj: GMLObject) -> (read: Result<Node, GMLError>)
        ensures
            match read {
                Ok(node) => node_of(obj.pairs@) == Ok::<NodeModel, GMLError>(node@),
                Err(e) => node_of(obj.pairs@) == Err::<NodeModel, GMLError>(e),
            },
    {
        let mut attrs = obj.pairs;
        let id = match take_needed_int(&mut attrs, "id", GMLFault::NoNodeId, GMLFault::NodeId) {
            Ok(id) => id,
            Err(e) => { return Err(e); },
        };
        let label = match take_label(&mut attrs) {
            Ok(label) => label,
            Err(e) => { return Err(e); },
        };
        Ok(Node { id, label, attrs })
    }
}

impl Edge {
    /// Reads an edge out of its list: `source` and `target` must be
    /// integers, `label` text where it is there; the rest is kept.
    pub fn from_gml(obj: GMLObject) -> (read: Result<Edge, GMLError>)
        ensures
            match read {
                Ok(edge) => edge_of(obj.pairs@) == Ok::<EdgeModel, GMLError>(edge@),
                Err(e) => edge_of(obj.pairs@) == Err::<EdgeModel, GMLError>(e),
            },
    {
        let mut attrs = obj.pairs;
        let source = match take_needed_int(&mut attrs, "source", GMLFault::NoSource, GMLFault::Source) {
            Ok(n) => n,
            Err(e) => { return Err(e); },
        };
        let target = match take_needed_int(&mut attrs, "target", GMLFault::NoTarget, GMLFault::Target) {
            Ok(n) => n,
            Err(e) => { return Err(e); },
        };
        let label = match take_label(&mut attrs) {
            Ok(label) => label,
            Err(e) => { return Err(e); },
        };
        Ok(Edge { source, target, label, attrs })
    }
}

/// The first index under a key is an index of the list.
pub proof fn lemma_has_key(attrs: Seq<(String, GMLValue)>, name: Seq<char>)
    requires
        has_key(attrs, name),
    ensures
        is_first(attrs, name, first_key(attrs, name)),
        without(attrs, first_key(attrs, name)).len() == attrs.len() - 1,
{
}

/// The nodes that the entries under `node` describe, in the order in which
/// they are taken out of the list, and the list without them.
pub open spec fn nodes_of(attrs: Seq<(String, GMLValue)>) -> Result<
    (Seq<NodeModel>, Seq<(String, GMLValue)>),
    GMLError,
>
    decreases attrs.len(),
{
    if has_key(attrs, "node"@) {
        proof {
            lemma_has_key(attrs, "node"@);
        }
        match attrs[first_key(attrs, "node"@)].1 {
            GMLValue::GMLObject(obj) => match node_of(obj.pairs@) {
                Ok(node) => match nodes_of(without(attrs, first_key(attrs, "node"@))) {
                    Ok((more, rest)) => Ok((seq![node] + more, rest)),
                    Err(e) => Err(e),
                },
                Err(e) => Err(e),
            },
            _ => Err(GMLError(GMLFault::NodeNotObject)),
        }
    } else {
        Ok((Seq::empty(), attrs))
    }
}

/// The edges that the entries under `edge` describe, in the order in which
/// they are taken out of the list, and the list without them.
pub open spec fn edges_of(attrs: Seq<(String, GMLValue)>) -> Result<
    (Seq<EdgeModel>, Seq<(String, GMLValue)>),
    GMLError,
>
    decreases attrs.len(),
{
    if has_key(attrs, "edge"@) {
        proof {
            lemma_has_key(attrs, "edge"@);
        }
        match attrs[first_key(attrs, "edge"@)].1 {
            GMLValue::GMLObject(obj) => match edge_of(obj.pairs@) {
                Ok(edge) => match edges_of(without(attrs, first_key(attrs, "edge"@))) {
                    Ok((more, rest)) => Ok((seq![edge] + more, rest)),
                    Err(e) => Err(e),
                },
                Err(e) => Err(e),
            },
            _ => Err(GMLError(GMLFault::EdgeNotObject)),
        }
    } else {
        Ok((Seq::empty(), attrs))
    }
}

/// What was read so far, before what is still to be read.
pub open spec fn after<T>(done: Seq<T>, coming: Result<(Seq<T>, Seq<(String, GMLValue)>), GMLError>) -> Result<
    (Seq<T>, Seq<(String, GMLValue)>),
    GMLError,
> {
    match coming {
        Ok((more, rest)) => Ok((done + more, rest)),
        Err(e) => Err(e),
    }
}

/// Whether `directed` says that the graph is directed.
pub open spec fn directed_of(flag: Option<i64>) -> Option<bool> {
    match flag {
        Some(n) => Some(n == 1),
        None => None,
    }
}

/// The graph that a list describes: `id` and `directed` must be integers
/// and `label` text where they are there, every `node` and `edge` a list
/// that describes one; the rest is kept.
pub open spec fn graph_of(attrs: Seq<(String, GMLValue)>) -> Result<GraphModel, GMLError> {
    match optional_int(attrs, "id"@, GMLFault::GraphId) {
        Ok((id, rest)) => match optional_int(rest, "directed"@, GMLFault::GraphDirected) {
            Ok((flag, rest)) => match optional_label(rest) {
                Ok((label, rest)) => match nodes_of(rest) {
                    Ok((nodes, rest)) => match edges_of(rest) {
                        Ok((edges, attrs)) => Ok(
                            GraphModel { directed: directed_of(flag), id, label, nodes, edges, attrs },
                        ),
                        Err(e) => Err(e),
                    },
                    Err(e) => Err(e),
                },
                Err(e) => Err(e),
            },
            Err(e) => Err(e),
        },
        Err(e) => Err(e),
    }
}

/// The graph that a document holds under `graph`.
pub open spec fn document_graph(attrs: Seq<(String, GMLValue)>) -> Result<GraphModel, GMLError> {
    if has_key(attrs, "graph"@) {
        match attrs[first_key(attrs, "graph"@)].1 {
            GMLValue::GMLObject(obj) => graph_of(obj.pairs@),
            _ => Err(GMLError(GMLFault::GraphNotObject)),
        }
    } else {
        Err(GMLError(GMLFault::NoGraph))
    }
}

/// How many entries stand under a key.
pub open spec fn key_count(attrs: Seq<(String, GMLValue)>, name: Seq<char>) -> nat
    decreases attrs.len(),
{
    if attrs.len() == 0 {
        0
    } else {
        key_count(attrs.drop_last(), name) + (if attrs.last().0@ == name { 1nat } else { 0nat })
    }
}

/// One for an entry under the key, nothing for another.
pub open spec fn under(entry: (String, GMLValue), name: Seq<char>) -> nat {
    if entry.0@ == name {
        1
    } else {
        0
    }
}

/// Putting an entry in the place of another changes the count by the two.
pub proof fn lemma_count_update(attrs: Seq<(String, GMLValue)>, i: int, entry: (String, GMLValue), name: Seq<char>)
    requires
        0 <= i < attrs.len(),
    ensures
        key_count(attrs.update(i, entry), name) + under(attrs[i], name) == key_count(attrs, name) + under(
            entry,
            name,
        ),
    decreases attrs.len(),
{
    let changed = attrs.update(i, entry);
    if i == attrs.len() - 1 {
        assert(changed.drop_last() =~= attrs.drop_last());
    } else {
        assert(changed.drop_last() =~= attrs.drop_last().update(i, entry));
        lemma_count_update(attrs.drop_last(), i, entry, name);
    }
}

/// Taking an entry out of the list takes it out of the count of its key.
pub proof fn lemma_count_without(attrs: Seq<(String, GMLValue)>, i: int, name: Seq<char>)
    requires
        0 <= i < attrs.len(),
    ensures
        key_count(without(attrs, i), name) + under(attrs[i], name) == key_count(attrs, name),
{
    if i == attrs.len() - 1 {
        assert(without(attrs, i) =~= attrs.drop_last());
    } else {
        assert(without(attrs, i) =~= attrs.drop_last().update(i, attrs.last()));
        lemma_count_update(attrs.drop_last(), i, attrs.last(), name);
    }
}

/// An entry under a key makes the list have the key.
pub proof fn lemma_key_found(attrs: Seq<(String, GMLValue)>, name: Seq<char>, j: int)
    requires
        0 <= j < attrs.len(),
        attrs[j].0@ == name,
    ensures
        has_key(attrs, name),
    decreases j,
{
    if exists|k: int| 0 <= k < j && (#[trigger] attrs[k]).0@ == name {
        let k = choose|k: int| 0 <= k < j && (#[trigger] attrs[k]).0@ == name;
        lemma_key_found(attrs, name, k);
    } else {
        assert(is_first(attrs, name, j));
    }
}

/// A list has a key exactly if the count under the key is not zero.
pub proof fn lemma_count_zero(attrs: Seq<(String, GMLValue)>, name: Seq<char>)
    ensures
        has_key(attrs, name) <==> key_count(attrs, name) > 0,
    decreases attrs.len(),
{
    if attrs.len() > 0 {
        let shorter = attrs.drop_last();
        lemma_count_zero(shorter, name);
        if has_key(shorter, name) {
            let i = first_key(shorter, name);
            assert(is_first(shorter, name, i));
            assert(attrs[i] == shorter[i]);
            lemma_key_found(attrs, name, i);
        }
        if attrs.last().0@ == name {
            lemma_key_found(attrs, name, attrs.len() - 1);
        }
        if has_key(attrs, name) {
            let i = first_key(attrs, name);
            assert(is_first(attrs, name, i));
            if i < shorter.len() {
                assert(shorter[i] == attrs[i]);
                lemma_key_found(shorter, name, i);
            }
        }
    } else {
        assert forall|i: int| !#[trigger] is_first(attrs, name, i) by {}
    }
}

/// Reading the nodes takes every `node` and nothing else out of the list.
pub proof fn lemma_nodes_count(attrs: Seq<(String, GMLValue)>)
    requires
        nodes_of(attrs) is Ok,
    ensures
        nodes_of(attrs).unwrap().0.len() == key_count(attrs, "node"@),
        nodes_of(attrs).unwrap().1.len() + key_count(attrs, "node"@) == attrs.len(),
        forall|name: Seq<char>|
            name != "node"@ ==> #[trigger] key_count(nodes_of(attrs).unwrap().1, name) == key_count(attrs, name),
    decreases attrs.len(),
{
    lemma_count_zero(attrs, "node"@);
    if has_key(attrs, "node"@) {
        lemma_has_key(attrs, "node"@);
        let i = first_key(attrs, "node"@);
        let rest = without(attrs, i);
        lemma_nodes_count(rest);
        lemma_count_without(attrs, i, "node"@);
        assert forall|name: Seq<char>| name != "node"@ implies #[trigger] key_count(
            nodes_of(attrs).unwrap().1,
            name,
        ) == key_count(attrs, name) by {
            lemma_count_without(attrs, i, name);
        }
    }
}

/// Reading the edges takes every `edge` and nothing else out of the list.
pub proof fn lemma_edges_count(attrs: Seq<(String, GMLValue)>)
    requires
        edges_of(attrs) is Ok,
    ensures
        edges_of(attrs).unwrap().0.len() == key_count(attrs, "edge"@),
        edges_of(attrs).unwrap().1.len() + key_count(attrs, "edge"@) == attrs.len(),
        forall|name: Seq<char>|
            name != "edge"@ ==> #[trigger] key_count(edges_of(attrs).unwrap().1, name) == key_count(attrs, name),
    decreases attrs.len(),
{
    lemma_count_zero(attrs, "edge"@);
    if has_key(attrs, "edge"@) {
        lemma_has_key(attrs, "edge"@);
        let i = first_key(attrs, "edge"@);
        let rest = without(attrs, i);
        lemma_edges_count(rest);
        lemma_count_without(attrs, i, "edge"@);
        assert forall|name: Seq<char>| name != "edge"@ implies #[trigger] key_count(
            edges_of(attrs).unwrap().1,
            name,
        ) == key_count(attrs, name) by {
            lemma_count_without(attrs, i, name);
        }
    }
}

/// A graph that is read has a node for every `node` of its list and an edge
/// for every `edge`.
pub proof fn lemma_graph_count(attrs: Seq<(String, GMLValue)>)
    requires
        graph_of(attrs) is Ok,
    ensures
        graph_of(attrs).unwrap().nodes.len() == key_count(attrs, "node"@),
        graph_of(attrs).unwrap().edges.len() == key_count(attrs, "edge"@),
{
    reveal_strlit("node");
    reveal_strlit("edge");
    reveal_strlit("id");
    reveal_strlit("directed");
    reveal_strlit("label");
    assert("node"@[0] != "edge"@[0]);
    let a1 = optional_int(attrs, "id"@, GMLFault::GraphId).unwrap().1;
    if has_key(attrs, "id"@) {
        lemma_has_key(attrs, "id"@);
        lemma_count_without(attrs, first_key(attrs, "id"@), "node"@);
        lemma_count_without(attrs, first_key(attrs, "id"@), "edge"@);
    }
    let a2 = optional_int(a1, "directed"@, GMLFault::GraphDirected).unwrap().1;
    if has_key(a1, "directed"@) {
        lemma_has_key(a1, "directed"@);
        lemma_count_without(a1, first_key(a1, "directed"@), "node"@);
        lemma_count_without(a1, first_key(a1, "directed"@), "edge"@);
    }
    let a3 = optional_label(a2).unwrap().1;
    if has_key(a2, "label"@) {
        lemma_has_key(a2, "label"@);
        lemma_count_without(a2, first_key(a2, "label"@), "node"@);
        lemma_count_without(a2, first_key(a2, "label"@), "edge"@);
    }
    lemma_nodes_count(a3);
    let a4 = nodes_of(a3).unwrap().1;
    lemma_edges_count(a4);
}

/// Takes every `node` out of the list and reads it.
fn take_nodes(attrs: &mut Vec<(String, GMLValue)>) -> (taken: Result<Vec<Node>, GMLError>)
    ensures
        match taken {
            Ok(nodes) => nodes_of(old(attrs)@) == Ok::<(Seq<NodeModel>, Seq<(String, GMLValue)>), GMLError>(
                (nodes@.map_values(|n: Node| n@), final(attrs)@),
            ),
            Err(e) => nodes_of(old(attrs)@) == Err::<(Seq<NodeModel>, Seq<(String, GMLValue)>), GMLError>(e),
        },
{
    let mut nodes: Vec<Node> = Vec::new();
    let mut more = true;
    assert(nodes@.map_values(|n: Node| n@) + Seq::<NodeModel>::empty() =~= Seq::<NodeModel>::empty());
    while more
        invariant
            after(nodes@.map_values(|n: Node| n@), nodes_of(attrs@)) == nodes_of(old(attrs)@),
            !more ==> !has_key(attrs@, "node"@),
        decreases attrs@.len() + (if more { 1int } else { 0int }),
    {
        let ghost before = attrs@;
        let ghost done = nodes@.map_values(|n: Node| n@);
        proof {
            if has_key(before, "node"@) {
                lemma_has_key(before, "node"@);
            }
        }
        match int_take_attribute(attrs, "node") {
            None => {
                more = false;
            },
            Some((_, GMLValue::GMLObject(obj))) => {
                match Node::from_gml(*obj) {
                    Ok(node) => {
                        let ghost model = node@;
                        nodes.push(node);
                        proof {
                            let now = nodes@.map_values(|n: Node| n@);
                            assert(now =~= done.push(model));
                            match nodes_of(attrs@) {
                                Ok((coming, rest)) => {
                                    assert(now + coming =~= done + (seq![model] + coming));
                                },
                                Err(_) => {},
                            }
                        }
                    },
                    Err(e) => {
                        return Err(e);
                    },
                }
            },
            Some(_) => {
                return Err(GMLError(GMLFault::NodeNotObject));
            },
        }
    }
    proof {
        assert(nodes@.map_values(|n: Node| n@) + Seq::<NodeModel>::empty() =~= nodes@.map_values(|n: Node| n@));
    }
    Ok(nodes)
}

/// Takes every `edge` out of the list and reads it.
fn take_edges(attrs: &mut Vec<(String, GMLValue)>) -> (taken: Result<Vec<Edge>, GMLError>)
    ensures
        match taken {
            Ok(edges) => edges_of(old(attrs)@) == Ok::<(Seq<EdgeModel>, Seq<(String, GMLValue)>), GMLError>(
                (edges@.map_values(|e: Edge| e@), final(attrs)@),
            ),
            Err(e) => edges_of(old(attrs)@) == Err::<(Seq<EdgeModel>, Seq<(String, GMLValue)>), GMLError>(e),
        },
{
    let mut edges: Vec<Edge> = Vec::new();
    let mut more = true;
    assert(edges@.map_values(|e: Edge| e@) + Seq::<EdgeModel>::empty() =~= Seq::<EdgeModel>::empty());
    while more
        invariant
            after(edges@.map_values(|e: Edge| e@), edges_of(attrs@)) == edges_of(old(attrs)@),
            !more ==> !has_key(attrs@, "edge"@),
        decreases attrs@.len() + (if more { 1int } else { 0int }),
    {
        let ghost before = attrs@;
        let ghost done = edges@.map_values(|e: Edge| e@);
        proof {
            if has_key(before, "edge"@) {
                lemma_has_key(before, "edge"@);
            }
        }
        match int_take_attribute(attrs, "edge") {
            None => {
                more = false;
            },
            Some((_, GMLValue::GMLObject(obj))) => {
                match Edge::from_gml(*obj) {
                    Ok(edge) => {
                        let ghost model = edge@;
                        edges.push(edge);
                        proof {
                            let now = edges@.map_values(|e: Edge| e@);
                            assert(now =~= done.push(model));
                            match edges_of(attrs@) {
                                Ok((coming, rest)) => {
                                    assert(now + coming =~= done + (seq![model] + coming));
                                },
                                Err(_) => {},
                            }
                        }
                    },
                    Err(e) => {
                        return Err(e);
                    },
                }
            },
            Some(_) => {
                return Err(GMLError(GMLFault::EdgeNotObject));
            },
        }
    }
    proof {
        assert(edges@.map_values(|e: Edge| e@) + Seq::<EdgeModel>::empty() =~= edges@.map_values(|e: Edge| e@));
    }
    Ok(edges)
}

impl GMLGraph {
    /// A graph without nodes, edges or attributes.
    pub fn new() -> (g: GMLGraph)
        ensures
            g@ == (GraphModel {
                directed: None,
                id: None,
                label: None,
                nodes: Seq::empty(),
                edges: Seq::empty(),
                attrs: Seq::empty(),
            }),
    {
        let g = GMLGraph {
            directed: None,
            id: None,
            label: None,
            nodes: Vec::new(),
            edges: Vec::new(),
            attrs: Vec::new(),
        };
        assert(g@.nodes =~= Seq::empty());
        assert(g@.edges =~= Seq::empty());
        g
    }

    /// Reads a graph out of its list.
    pub fn int_from_gml(obj: GMLObject) -> (read: Result<GMLGraph, GMLError>)
        ensures
            match read {
                Ok(g) => {
                    &&& graph_of(obj.pairs@) == Ok::<GraphModel, GMLError>(g@)
                    &&& g.nodes@.len() == key_count(obj.pairs@, "node"@)
                    &&& g.edges@.len() == key_count(obj.pairs@, "edge"@)
                },
                Err(e) => graph_of(obj.pairs@) == Err::<GraphModel, GMLError>(e),
            },
    {
        let mut attrs = obj.pairs;
        let id = match take_optional_int(&mut attrs, "id", GMLFault::GraphId) {
            Ok(id) => id,
            Err(e) => { return Err(e); },
        };
        let directed = match take_optional_int(&mut attrs, "directed", GMLFault::GraphDirected) {
            Ok(Some(n)) => Some(n == 1),
            Ok(None) => None,
            Err(e) => { return Err(e); },
        };
        let label = match take_label(&mut attrs) {
            Ok(label) => label,
            Err(e) => { return Err(e); },
        };
        let nodes = match take_nodes(&mut attrs) {
            Ok(nodes) => nodes,
            Err(e) => { return Err(e); },
        };
        let edges = match take_edges(&mut attrs) {
            Ok(edges) => edges,
            Err(e) => { return Err(e); },
        };
        proof {
            lemma_graph_count(obj.pairs@);
        }
        Ok(GMLGraph { directed, id, label, nodes, edges, attrs })
    }

    /// Reads the graph of a document: the list under the document's first
    /// `graph`. A document holds one graph.
    pub fn from_gml(obj: GMLObject) -> (read: Result<GMLGraph, GMLError>)
        ensures
            match read {
                Ok(g) => document_graph(obj.pairs@) == Ok::<GraphModel, GMLError>(g@),
                Err(e) => document_graph(obj.pairs@) == Err::<GraphModel, GMLError>(e),
            },
    {
        let mut attrs = obj.pairs;
        match int_take_attribute(&mut attrs, "graph") {
            None => Err(GMLError(GMLFault::NoGraph)),
            Some((_, GMLValue::GMLObject(graph))) => GMLGraph::int_from_gml(*graph),
            Some(_) => Err(GMLError(GMLFault::GraphNotObject)),
        }
    }
}

impl Default for GMLGraph {
    fn default() -> (g: GMLGraph)
        ensures
            g@ == (GraphModel {
                directed: None,
                id: None,
                label: None,
                nodes: Seq::empty(),
                edges: Seq::empty(),
                attrs: Seq::empty(),
            }),
    {
        GMLGraph::new()
    }
}

/// What has a list of attributes beyond its own fields.
pub trait HasGMLAttributes {
    /// The attributes, in their order.
    spec fn attrs(&self) -> Seq<(String, GMLValue)>;

    fn attributes(&self) -> (attrs: &Vec<(String, GMLValue)>)
        ensures
            attrs@ == self.attrs(),
    ;

    fn attributes_mut(&mut self) -> (attrs: &mut Vec<(String, GMLValue)>)
        ensures
            attrs@ == old(self).attrs(),
            final(self).attrs() == final(attrs)@,
    ;
}

/// Reading single attributes by their key.
pub trait ReadableGMLAttributes<'a>: HasGMLAttributes {
    /// Takes the first attribute under the key out of the list; the last
    /// attribute takes its place.
    fn take_attribute(&mut self, name: &str) -> (taken: Option<(String, GMLValue)>)
        ensures
            match taken {
                Some(entry) => {
                    &&& has_key(old(self).attrs(), name@)
                    &&& entry == old(self).attrs()[first_key(old(self).attrs(), name@)]
                    &&& final(self).attrs() == without(old(self).attrs(), first_key(old(self).attrs(), name@))
                },
                None => !has_key(old(self).attrs(), name@) && final(self).attrs() == old(self).attrs(),
            },
    ;

    /// The first attribute under the key.
    fn get_attribute(&'a self, name: &str) -> (found: Option<&'a (String, GMLValue)>)
        ensures
            match found {
                Some(entry) => has_key(self.attrs(), name@) && *entry == self.attrs()[first_key(
                    self.attrs(),
                    name@,
                )],
                None => !has_key(self.attrs(), name@),
            },
    ;
}

impl HasGMLAttributes for Node {
    open spec fn attrs(&self) -> Seq<(String, GMLValue)> {
        self.attrs@
    }

    fn attributes(&self) -> (attrs: &Vec<(String, GMLValue)>) {
        &self.attrs
    }

    fn attributes_mut(&mut self) -> (attrs: &mut Vec<(String, GMLValue)>) {
        &mut self.attrs
    }
}

impl<'a> ReadableGMLAttributes<'a> for Node {
    fn take_attribute(&mut self, name: &str) -> (taken: Option<(String, GMLValue)>) {
        int_take_attribute(&mut self.attrs, name)
    }

    fn get_attribute(&'a self, name: &str) -> (found: Option<&'a (String, GMLValue)>) {
        int_get_attribute(self.attrs.as_slice(), name)
    }
}

impl HasGMLAttributes for Edge {
    open spec fn attrs(&self) -> Seq<(String, GMLValue)> {
        self.attrs@
    }

    fn attributes(&self) -> (attrs: &Vec<(String, GMLValue)>) {
        &self.attrs
    }

    fn attributes_mut(&mut self) -> (attrs: &mut Vec<(String, GMLValue)>) {
        &mut self.attrs
    }
}

impl<'a> ReadableGMLAttributes<'a> for Edge {
    fn take_attribute(&mut self, name: &str) -> (taken: Option<(String, GMLValue)>) {
        int_take_attribute(&mut self.attrs, name)
    }

    fn get_attribute(&'a self, name: &str) -> (found: Option<&'a (String, GMLValue)>) {
        int_get_attribute(self.attrs.as_slice(), name)
    }
}

impl HasGMLAttributes for GMLGraph {
    open spec fn attrs(&self) -> Seq<(String, GMLValue)> {
        self.attrs@
    }

    fn attributes(&self) -> (attrs: &Vec<(String, GMLValue)>) {
        &self.attrs
    }

    fn attributes_mut(&mut self) -> (attrs: &mut Vec<(String, GMLValue)>) {
        &mut self.attrs
    }
}

impl<'a> ReadableGMLAttributes<'a> for GMLGraph {
    fn take_attribute(&mut self, name: &str) -> (taken: Option<(String, GMLValue)>) {
        int_take_attribute(&mut self.attrs, name)
    }

    fn get_attribute(&'a self, name: &str) -> (found: Option<&'a (String, GMLValue)>) {
        int_get_attribute(self.attrs.as_slice(), name)
    }
}

/// The last number under a key that is no integer, as it was written.
pub open spec fn last_float(attrs: Seq<(String, GMLValue)>, name: Seq<char>) -> Option<String>
    decreases attrs.len(),
{
    if attrs.len() == 0 {
        None
    } else {
        match attrs.last().1 {
            GMLValue::GMLFloat(text) if attrs.last().0@ == name => Some(text),
            _ => last_float(attrs.drop_last(), name),
        }
    }
}

/// The text under a key, where the first entry under it is text.
pub open spec fn text_under(attrs: Seq<(String, GMLValue)>, name: Seq<char>) -> Option<String> {
    if has_key(attrs, name) {
        match attrs[first_key(attrs, name)].1 {
            GMLValue::GMLString(text) => Some(text),
            _ => None,
        }
    } else {
        None
    }
}

/// The position that a node's `graphics` give: of its `x` and of its `y`
/// the last number that is no integer, as it was written.
pub open spec fn graphic_pos(attrs: Seq<(String, GMLValue)>) -> (Option<String>, Option<String>) {
    if has_key(attrs, "graphics"@) {
        match attrs[first_key(attrs, "graphics"@)].1 {
            GMLValue::GMLObject(graphics) => (last_float(graphics.pairs@, "x"@), last_float(graphics.pairs@, "y"@)),
            _ => (None, None),
        }
    } else {
        (None, None)
    }
}

/// The last number under a key that is no integer.
fn find_last_float<'a>(attrs: &'a [(String, GMLValue)], name: &str) -> (found: Option<&'a String>)
    ensures
        match found {
            Some(text) => last_float(attrs@, name@) == Some(*text),
            None => last_float(attrs@, name@) is None,
        },
{
    let mut found: Option<&'a String> = None;
    let mut i: usize = 0;
    while i < attrs.len()
        invariant
            i <= attrs.len(),
            match found {
                Some(text) => last_float(attrs@.subrange(0, i as int), name@) == Some(*text),
                None => last_float(attrs@.subrange(0, i as int), name@) is None,
            },
        decreases attrs.len() - i,
    {
        proof {
            let upto = attrs@.subrange(0, i + 1);
            assert(upto.drop_last() == attrs@.subrange(0, i as int));
            assert(upto.last() == attrs@[i as int]);
        }
        match &attrs[i].1 {
            GMLValue::GMLFloat(text) => {
                if same_text(attrs[i].0.as_str(), name) {
                    found = Some(text);
                }
            },
            _ => {},
        }
        i += 1;
    }
    assert(attrs@.subrange(0, attrs.len() as int) == attrs@);
    found
}

impl Node {
    /// Where the node's `graphics` put it. The two numbers come as they were
    /// written; the one that is missing comes as `None` and stands for zero.
    pub fn get_graphic_pos(&self) -> (pos: (Option<&String>, Option<&String>))
        ensures
            graphic_pos(self.attrs@) == (match pos.0 {
                Some(x) => Some(*x),
                None => None,
            }, match pos.1 {
                Some(y) => Some(*y),
                None => None,
            }),
    {
        match int_get_attribute(self.attrs.as_slice(), "graphics") {
            Some((_, GMLValue::GMLObject(graphics))) => (
                find_last_float(graphics.pairs.as_slice(), "x"),
                find_last_float(graphics.pairs.as_slice(), "y"),
            ),
            _ => (None, None),
        }
    }

    /// The text under the node's first attribute of this key.
    pub fn get_text(&self, name: &str) -> (text: Option<&String>)
        ensures
            text_under(self.attrs@, name@) == (match text {
                Some(t) => Some(*t),
                None => None,
            }),
    {
        match int_get_attribute(self.attrs.as_slice(), name) {
            Some((_, GMLValue::GMLString(text))) => Some(text),
            _ => None,
        }
    }
}

} // verus!
