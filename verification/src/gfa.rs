//! The sequence graph store: nodes with a byte-string id, a sequence and a
//! provenance tag, joined by undirected edges.

use crate::adjacency::{
    adjacent, astar_route, component_count, components, connected, count_edges, count_nodes, edge_pairs,
    empty_graph, graph_edges, graph_nodes, has_edge, joins, neighbor_slots, node_slots, push_edge, push_node, route,
    shortest_walk, walks,
};
use crate::ident::{hash_id, id_hash, same_bytes};
use petgraph::graph::UnGraph;
use std::collections::HashMap;
use vstd::prelude::*;
use vstd::utf8::encode_utf8;

verus! {

broadcast use vstd::std_specs::hash::group_hash_axioms;

/// Why a node is part of a graph.
#[derive(Clone, Copy, Debug, PartialEq, Eq, Hash, Structural)]
pub enum Provenance {
    Reference,
    Alternate,
    Unspecified,
}

/// What can go wrong in the store and in an extraction.
#[derive(Clone, Copy, Debug, PartialEq, Eq, Structural)]
pub enum GraphError {
    /// An id does not name a node of the graph.
    NodeNotFound,
    /// A bubble without any traversal.
    MalformedBubble,
}

/// The attributes of one node.
#[derive(Debug, Clone, PartialEq, Eq, Hash)]
pub struct NodeData {
    pub id: Vec<u8>,
    pub sequence: String,
    pub status: Provenance,
}

/// A node as contracts see it.
pub struct NodeView {
    pub id: Seq<u8>,
    pub sequence: Seq<char>,
    pub status: Provenance,
}

impl NodeView {
    /// The node's length: the number of bytes of its sequence.
    pub open spec fn len(self) -> nat {
        encode_utf8(self.sequence).len()
    }
}

impl View for NodeData {
    type V = NodeView;

    open spec fn view(&self) -> NodeView {
        NodeView { id: self.id@, sequence: self.sequence@, status: self.status }
    }
}

impl NodeData {
    /// A node without id or sequence, tagged `Unspecified`.
    pub fn default() -> (node: NodeData)
        ensures
            node@ == (NodeView { id: Seq::empty(), sequence: Seq::empty(), status: Provenance::Unspecified }),
    {
        NodeData { id: Vec::new(), sequence: String::new(), status: Provenance::Unspecified }
    }
}

/// The pair of slots with the lower one first.
pub open spec fn canonical(a: int, b: int) -> (int, int) {
    if a <= b {
        (a, b)
    } else {
        (b, a)
    }
}

/// A graph as contracts see it: the nodes by slot, and the edges in the order
/// in which they were inserted, each with its lower slot first.
pub struct GraphView {
    pub nodes: Seq<NodeView>,
    pub edges: Seq<(int, int)>,
}

impl GraphView {
    /// The graph without nodes.
    pub open spec fn empty() -> GraphView {
        GraphView { nodes: Seq::empty(), edges: Seq::empty() }
    }

    /// No id occurs twice, every edge joins two slots of the graph with the
    /// lower one first, no edge occurs twice, and both counts fit an index.
    pub open spec fn wf(self) -> bool {
        &&& self.nodes.len() <= u32::MAX
        &&& self.edges.len() <= u32::MAX
        &&& forall|i: int, j: int|
            0 <= i < j < self.nodes.len() ==> (#[trigger] self.nodes[i]).id != (#[trigger] self.nodes[j]).id
        &&& forall|k: int|
            0 <= k < self.edges.len() ==> 0 <= (#[trigger] self.edges[k]).0 <= self.edges[k].1 < self.nodes.len()
        &&& self.edges.no_duplicates()
    }

    /// Whether a node has this id.
    pub open spec fn has_id(self, id: Seq<u8>) -> bool {
        exists|i: int| 0 <= i < self.nodes.len() && (#[trigger] self.nodes[i]).id == id
    }

    /// The slot of the node with this id, where there is one.
    pub open spec fn slot_of(self, id: Seq<u8>) -> int {
        choose|i: int| 0 <= i < self.nodes.len() && (#[trigger] self.nodes[i]).id == id
    }

    /// The slot that `with_node` gives a node with this id.
    pub open spec fn slot_for(self, id: Seq<u8>) -> int {
        if self.has_id(id) {
            self.slot_of(id)
        } else {
            self.nodes.len() as int
        }
    }

    /// The graph after a node was inserted: it takes the place of the node
    /// with its id, or a new slot at the end.
    pub open spec fn with_node(self, node: NodeView) -> GraphView {
        if self.has_id(node.id) {
            GraphView { nodes: self.nodes.update(self.slot_of(node.id), node), edges: self.edges }
        } else {
            GraphView { nodes: self.nodes.push(node), edges: self.edges }
        }
    }

    /// Whether an edge joins the two slots.
    pub open spec fn has_edge(self, a: int, b: int) -> bool {
        self.edges.contains(canonical(a, b))
    }

    /// The graph after the edge between two slots was inserted: unchanged if
    /// it was there, else with the canonical pair at the end.
    pub open spec fn with_edge(self, a: int, b: int) -> GraphView {
        if self.has_edge(a, b) {
            self
        } else {
            GraphView { nodes: self.nodes, edges: self.edges.push(canonical(a, b)) }
        }
    }

    /// The neighbours of a slot, in the order in which the store lists them.
    pub open spec fn neighbors(self, slot: int) -> Seq<int> {
        if 0 <= slot < self.nodes.len() {
            neighbor_slots(self.edges, slot)
        } else {
            Seq::empty()
        }
    }

    /// Whether the edge between the nodes with these ids can be inserted: the
    /// edge count must stay within the index type.
    pub open spec fn edge_fits(self, from: Seq<u8>, to: Seq<u8>) -> bool {
        self.has_id(from) && self.has_id(to) && !self.has_edge(self.slot_of(from), self.slot_of(to))
            ==> self.edges.len() < u32::MAX
    }
}

/// A sequence graph.
#[derive(Debug)]
pub struct GFAGraph {
    inner_graph: UnGraph<Vec<u8>, ()>,
    node_attrs: Vec<NodeData>,
    id_to_idx: HashMap<u64, Vec<usize>>,
}

impl View for GFAGraph {
    type V = GraphView;

    closed spec fn view(&self) -> GraphView {
        GraphView {
            nodes: self.node_attrs@.map_values(|n: NodeData| n@),
            edges: graph_edges(&self.inner_graph),
        }
    }
}

impl Default for GFAGraph {
    fn default() -> (g: GFAGraph)
        ensures
            g.wf(),
            g@ == GraphView::empty(),
    {
        GFAGraph::new()
    }
}

impl GFAGraph {
    /// The adjacency structure holds the ids of the nodes, slot by slot.
    pub closed spec fn adjacency_wf(&self) -> bool {
        &&& graph_nodes(&self.inner_graph).len() == self.node_attrs@.len()
        &&& forall|i: int|
            0 <= i < self.node_attrs@.len() ==> #[trigger] graph_nodes(&self.inner_graph)[i]
                == self.node_attrs@[i].id@
    }

    /// The id index lists every slot under the hash of its id, and nothing
    /// else.
    pub closed spec fn index_wf(&self) -> bool {
        &&& forall|i: int|
            0 <= i < self.node_attrs@.len() ==> {
                let h = id_hash(#[trigger] self.node_attrs@[i].id@);
                self.id_to_idx@.contains_key(h) && self.id_to_idx@[h]@.contains(i as usize)
            }
        &&& forall|h: u64, k: int|
            self.id_to_idx@.contains_key(h) && 0 <= k < self.id_to_idx@[h]@.len() ==> {
                let slot = #[trigger] self.id_to_idx@[h]@[k];
                slot < self.node_attrs@.len() && id_hash(self.node_attrs@[slot as int].id@) == h
            }
    }

    /// The store's invariant.
    pub open spec fn wf(&self) -> bool {
        &&& self@.wf()
        &&& self.adjacency_wf()
        &&& self.index_wf()
    }

    /// An empty store.
    pub fn new() -> (g: GFAGraph)
        ensures
            g.wf(),
            g@ == GraphView::empty(),
    {
        let g = GFAGraph { inner_graph: empty_graph(), node_attrs: Vec::new(), id_to_idx: HashMap::new() };
        assert(g@.nodes =~= Seq::empty());
        g
    }

    /// The slot of the node with this id.
    pub fn get_node_idx(&self, node_id: &[u8]) -> (slot: Option<usize>)
        requires
            self.wf(),
        ensures
            match slot {
                Some(s) => self@.has_id(node_id@) && s == self@.slot_of(node_id@),
                None => !self@.has_id(node_id@),
            },
    {
        let h = hash_id(node_id);
        match self.id_to_idx.get(&h) {
            None => {
                assert forall|i: int| 0 <= i < self@.nodes.len() implies (#[trigger] self@.nodes[i]).id
                    != node_id@ by {
                    assert(self.node_attrs@[i].id@ == self@.nodes[i].id);
                }
                None
            },
            Some(bucket) => {
                let mut k: usize = 0;
                while k < bucket.len()
                    invariant
                        self.wf(),
                        k <= bucket.len(),
                        self.id_to_idx@.contains_key(h),
                        self.id_to_idx@[h] == *bucket,
                        h == id_hash(node_id@),
                        forall|j: int| 0 <= j < k ==> self.node_attrs@[bucket@[j] as int].id@ != node_id@,
                    decreases bucket.len() - k,
                {
                    let slot = bucket[k];
                    assert(self.id_to_idx@[h]@[k as int] == slot);
                    if same_bytes(self.node_attrs[slot].id.as_slice(), node_id) {
                        assert(self@.nodes[slot as int].id == node_id@);
                        return Some(slot);
                    }
                    k += 1;
                }
                assert forall|i: int| 0 <= i < self@.nodes.len() implies (#[trigger] self@.nodes[i]).id
                    != node_id@ by {
                    assert(self.node_attrs@[i].id@ == self@.nodes[i].id);
                    if self.node_attrs@[i].id@ == node_id@ {
                        let j = bucket@.index_of(i as usize);
                        assert(bucket@[j] == i as usize);
                    }
                }
                None
            },
        }
    }

    /// Inserts a node. A node with this id keeps its slot and takes the new
    /// attributes; a new id takes the next slot. Returns the slot.
    pub fn add_node(&mut self, id: Vec<u8>, sequence: String, status: Provenance) -> (slot: usize)
        requires
            old(self).wf(),
            old(self)@.has_id(id@) || old(self)@.nodes.len() < u32::MAX,
        ensures
            final(self).wf(),
            final(self)@ == old(self)@.with_node(NodeView { id: id@, sequence: sequence@, status }),
            slot == old(self)@.slot_for(id@),
    {
        let ghost before = self@;
        let ghost node = NodeView { id: id@, sequence: sequence@, status };
        match self.get_node_idx(id.as_slice()) {
            Some(slot) => {
                let ghost attrs = self.node_attrs@;
                self.node_attrs.set(slot, NodeData { id, sequence, status });
                proof {
                    assert(self@.nodes =~= before.nodes.update(slot as int, node));
                    assert forall|i: int| 0 <= i < attrs.len() implies self.node_attrs@[i].id@
                        == #[trigger] attrs[i].id@ by {
                        assert(before.nodes[i].id == attrs[i].id@);
                    }
                    assert(self.index_wf());
                    assert forall|i: int, j: int| 0 <= i < j < self@.nodes.len() implies (
                    #[trigger] self@.nodes[i]).id != (#[trigger] self@.nodes[j]).id by {
                        assert(before.nodes[i].id == attrs[i].id@);
                        assert(before.nodes[j].id == attrs[j].id@);
                    }
                }
                slot
            },
            None => {
                let h = hash_id(id.as_slice());
                let ghost attrs = self.node_attrs@;
                let ghost index = self.id_to_idx@;
                let slot = push_node(&mut self.inner_graph, vstd::slice::slice_to_vec(id.as_slice()));
                self.node_attrs.push(NodeData { id, sequence, status });
                let mut bucket = match self.id_to_idx.remove(&h) {
                    Some(b) => b,
                    None => Vec::new(),
                };
                let ghost listed = bucket@;
                bucket.push(slot);
                self.id_to_idx.insert(h, bucket);
                proof {
                    assert(self@.nodes =~= before.nodes.push(node));
                    assert(index.contains_key(h) ==> index[h]@ == listed);
                    assert(self.id_to_idx@[h]@ == listed.push(slot));
                    assert(self.id_to_idx@[h]@[listed.len() as int] == slot);
                    assert forall|i: int| 0 <= i < self.node_attrs@.len() implies {
                        let hi = id_hash(#[trigger] self.node_attrs@[i].id@);
                        self.id_to_idx@.contains_key(hi) && self.id_to_idx@[hi]@.contains(i as usize)
                    } by {
                        let hi = id_hash(self.node_attrs@[i].id@);
                        if i < attrs.len() {
                            assert(self.node_attrs@[i] == attrs[i]);
                            assert(index.contains_key(hi) && index[hi]@.contains(i as usize));
                            if hi == h {
                                let k = listed.index_of(i as usize);
                                assert(self.id_to_idx@[h]@[k] == i as usize);
                            }
                        }
                    }
                    assert forall|g: u64, k: int|
                        self.id_to_idx@.contains_key(g) && 0 <= k < self.id_to_idx@[g]@.len() implies {
                        let s = #[trigger] self.id_to_idx@[g]@[k];
                        s < self.node_attrs@.len() && id_hash(self.node_attrs@[s as int].id@) == g
                    } by {
                        if g == h {
                            if k < listed.len() {
                                assert(index[h]@[k] == listed[k]);
                            }
                        } else {
                            assert(index.contains_key(g));
                            assert(index[g]@[k] == self.id_to_idx@[g]@[k]);
                        }
                    }
                    assert forall|i: int, j: int| 0 <= i < j < self@.nodes.len() implies (
                    #[trigger] self@.nodes[i]).id != (#[trigger] self@.nodes[j]).id by {
                        if j == before.nodes.len() {
                            assert(before.nodes[i].id != id@);
                        }
                    }
                }
                slot
            },
        }
    }

    /// Inserts the undirected edge between two nodes, unless it is there.
    pub fn add_edge(&mut self, from: &[u8], to: &[u8]) -> (done: Result<(), GraphError>)
        requires
            old(self).wf(),
            old(self)@.edge_fits(from@, to@),
        ensures
            final(self).wf(),
            match done {
                Ok(_) => {
                    &&& old(self)@.has_id(from@)
                    &&& old(self)@.has_id(to@)
                    &&& final(self)@ == old(self)@.with_edge(
                        old(self)@.slot_of(from@),
                        old(self)@.slot_of(to@),
                    )
                },
                Err(e) => {
                    &&& e == GraphError::NodeNotFound
                    &&& !(old(self)@.has_id(from@) && old(self)@.has_id(to@))
                    &&& final(self)@ == old(self)@
                },
            },
    {
        let a = match self.get_node_idx(from) {
            Some(a) => a,
            None => { return Err(GraphError::NodeNotFound); },
        };
        let b = match self.get_node_idx(to) {
            Some(b) => b,
            None => { return Err(GraphError::NodeNotFound); },
        };
        let (lo, hi) = if a <= b { (a, b) } else { (b, a) };
        let ghost before = self@;
        proof {
            lemma_joins_canonical(before, a as int, b as int);
        }
        if !has_edge(&self.inner_graph, lo, hi) {
            push_edge(&mut self.inner_graph, lo, hi);
            proof {
                assert(self@.nodes == before.nodes);
                assert forall|i: int, j: int|
                    0 <= i < self@.edges.len() && 0 <= j < self@.edges.len() && i != j implies self@.edges[i]
                    != self@.edges[j] by {
                    if i == before.edges.len() {
                        assert(before.edges[j] == self@.edges[j]);
                    }
                    if j == before.edges.len() {
                        assert(before.edges[i] == self@.edges[i]);
                    }
                }
            }
        }
        Ok(())
    }

    /// The attributes of the node in a slot.
    pub fn get_node_data(&self, idx: usize) -> (node: Option<&NodeData>)
        ensures
            match node {
                Some(n) => idx < self@.nodes.len() && n@ == self@.nodes[idx as int],
                None => idx >= self@.nodes.len(),
            },
    {
        if idx < self.node_attrs.len() {
            Some(&self.node_attrs[idx])
        } else {
            None
        }
    }

    /// The attributes of the node with this id.
    pub fn get_node_data_by_id(&self, node_id: &[u8]) -> (node: Option<&NodeData>)
        requires
            self.wf(),
        ensures
            match node {
                Some(n) => self@.has_id(node_id@) && n@ == self@.nodes[self@.slot_of(node_id@)],
                None => !self@.has_id(node_id@),
            },
    {
        match self.get_node_idx(node_id) {
            Some(idx) => self.get_node_data(idx),
            None => None,
        }
    }

    /// The number of nodes.
    pub fn node_count(&self) -> (n: usize)
        requires
            self.wf(),
        ensures
            n == self@.nodes.len(),
    {
        count_nodes(&self.inner_graph)
    }

    /// The number of edges.
    pub fn edge_count(&self) -> (n: usize)
        ensures
            n == self@.edges.len(),
    {
        count_edges(&self.inner_graph)
    }

    /// The neighbours of a slot; none for a slot that the store does not have.
    pub fn neighbors(&self, node_idx: usize) -> (out: Vec<usize>)
        requires
            self.wf(),
        ensures
            out@.map_values(|s: usize| s as int) == self@.neighbors(node_idx as int),
    {
        if node_idx < self.node_attrs.len() {
            adjacent(&self.inner_graph, node_idx)
        } else {
            let out: Vec<usize> = Vec::new();
            assert(out@.map_values(|s: usize| s as int) =~= Seq::<int>::empty());
            out
        }
    }

    /// The neighbours of the node with this id; none for an unknown id.
    pub fn neighbors_by_id(&self, node_id: &[u8]) -> (out: Vec<usize>)
        requires
            self.wf(),
        ensures
            out@.map_values(|s: usize| s as int) == (if self@.has_id(node_id@) {
                self@.neighbors(self@.slot_of(node_id@))
            } else {
                Seq::empty()
            }),
    {
        match self.get_node_idx(node_id) {
            Some(idx) => self.neighbors(idx),
            None => {
                let out: Vec<usize> = Vec::new();
                assert(out@.map_values(|s: usize| s as int) =~= Seq::<int>::empty());
                out
            },
        }
    }

    /// The sequence of the node in a slot, as bytes.
    pub fn get_sequence(&self, node_idx: usize) -> (bytes: Option<&[u8]>)
        ensures
            match bytes {
                Some(b) => node_idx < self@.nodes.len() && b@ == encode_utf8(self@.nodes[node_idx as int].sequence),
                None => node_idx >= self@.nodes.len(),
            },
    {
        match self.get_node_data(node_idx) {
            Some(data) => Some(data.sequence.as_str().as_bytes()),
            None => None,
        }
    }

    /// The length of the node in a slot.
    pub fn get_seq_len(&self, node_idx: usize) -> (len: Option<usize>)
        ensures
            match len {
                Some(l) => node_idx < self@.nodes.len() && l == self@.nodes[node_idx as int].len(),
                None => node_idx >= self@.nodes.len(),
            },
    {
        match self.get_node_data(node_idx) {
            Some(data) => Some(data.sequence.as_str().as_bytes().len()),
            None => None,
        }
    }

    /// The length of the node with this id.
    pub fn get_seq_len_by_id(&self, node_id: &[u8]) -> (len: Option<usize>)
        requires
            self.wf(),
        ensures
            match len {
                Some(l) => self@.has_id(node_id@) && l == self@.nodes[self@.slot_of(node_id@)].len(),
                None => !self@.has_id(node_id@),
            },
    {
        match self.get_node_idx(node_id) {
            Some(idx) => self.get_seq_len(idx),
            None => None,
        }
    }

    /// The id of the node in a slot.
    pub fn get_id(&self, node_idx: usize) -> (id: Option<&[u8]>)
        ensures
            match id {
                Some(b) => node_idx < self@.nodes.len() && b@ == self@.nodes[node_idx as int].id,
                None => node_idx >= self@.nodes.len(),
            },
    {
        match self.get_node_data(node_idx) {
            Some(data) => Some(data.id.as_slice()),
            None => None,
        }
    }

    /// Every edge of the store as a pair of slots, lower slot first, in the
    /// order of insertion.
    pub fn edges(&self) -> (out: Vec<(usize, usize)>)
        ensures
            out@.map_values(|e: (usize, usize)| (e.0 as int, e.1 as int)) == self@.edges,
    {
        edge_pairs(&self.inner_graph)
    }

    /// Every slot of the store, ascending.
    pub fn node_indices(&self) -> (out: Vec<usize>)
        requires
            self.wf(),
        ensures
            out@ == Seq::new(self@.nodes.len(), |i: int| i as usize),
    {
        node_slots(&self.inner_graph)
    }

    /// The number of connected components: of sets of nodes that walks along
    /// the edges join.
    pub fn connected_components(&self) -> (n: usize)
        requires
            self.wf(),
        ensures
            n == component_count(self@.nodes.len(), self@.edges),
    {
        components(&self.inner_graph)
    }

    /// A shortest path between two nodes, by its slots: the one that
    /// `petgraph`'s A* search finds, every edge at cost one. There is one
    /// exactly when both ids are known and a walk along the edges joins the
    /// two nodes.
    pub fn shortest_path(&self, from_id: &[u8], to_id: &[u8]) -> (path: Option<Vec<usize>>)
        requires
            self.wf(),
        ensures
            path is Some <==> self@.has_id(from_id@) && self@.has_id(to_id@) && connected(
                self@.edges,
                self@.slot_of(from_id@),
                self@.slot_of(to_id@),
            ),
            match path {
                Some(p) => {
                    &&& shortest_walk(
                        self@.edges,
                        p@.map_values(|s: usize| s as int),
                        self@.slot_of(from_id@),
                        self@.slot_of(to_id@),
                    )
                    &&& forall|k: int| 0 <= k < p@.len() ==> #[trigger] p@[k] < self@.nodes.len()
                    &&& Some(p@.map_values(|s: usize| s as int)) == astar_route(
                        self@.nodes.len(),
                        self@.edges,
                        self@.slot_of(from_id@),
                        self@.slot_of(to_id@),
                    )
                },
                None => self@.has_id(from_id@) && self@.has_id(to_id@) ==> astar_route(
                    self@.nodes.len(),
                    self@.edges,
                    self@.slot_of(from_id@),
                    self@.slot_of(to_id@),
                ) is None,
            },
    {
        let start = match self.get_node_idx(from_id) {
            Some(s) => s,
            None => { return None; },
        };
        let end = match self.get_node_idx(to_id) {
            Some(e) => e,
            None => { return None; },
        };
        let path = route(&self.inner_graph, start, end);
        proof {
            match &path {
                Some(p) => {
                    let walk = p@.map_values(|s: usize| s as int);
                    assert(walks(self@.edges, walk, start as int, end as int));
                    assert forall|k: int| 0 <= k < p@.len() implies #[trigger] p@[k] < self@.nodes.len() by {
                        lemma_walk_within(self@, walk, start as int, end as int, k);
                        assert(walk[k] == p@[k] as int);
                    }
                },
                None => {},
            }
        }
        path
    }
}

/// A segment of a graph file: a name and the sequence under it.
#[derive(Debug, Clone, PartialEq, Eq)]
pub struct Segment {
    pub name: Vec<u8>,
    pub sequence: String,
}

/// A link of a graph file: the names of the two segments that it joins.
#[derive(Debug, Clone, PartialEq, Eq)]
pub struct Link {
    pub from_segment: Vec<u8>,
    pub to_segment: Vec<u8>,
}

/// The graph after the segments were inserted in their order, each as a node
/// tagged `Unspecified`.
pub open spec fn with_segments(g: GraphView, segments: Seq<Segment>) -> GraphView
    decreases segments.len(),
{
    if segments.len() == 0 {
        g
    } else {
        with_segments(g, segments.drop_last()).with_node(
            NodeView {
                id: segments.last().name@,
                sequence: segments.last().sequence@,
                status: Provenance::Unspecified,
            },
        )
    }
}

/// The graph after one link was inserted: a link that names an unknown
/// segment is passed over.
pub open spec fn with_link(g: GraphView, link: Link) -> GraphView {
    if g.has_id(link.from_segment@) && g.has_id(link.to_segment@) {
        g.with_edge(g.slot_of(link.from_segment@), g.slot_of(link.to_segment@))
    } else {
        g
    }
}

/// The graph after the links were inserted in their order.
pub open spec fn with_links(g: GraphView, links: Seq<Link>) -> GraphView
    decreases links.len(),
{
    if links.len() == 0 {
        g
    } else {
        with_link(with_links(g, links.drop_last()), links.last())
    }
}

/// Builds the store of a graph file: a node for every segment, then an edge
/// for every link between two segments that are there.
pub fn build_graph(segments: &Vec<Segment>, links: &Vec<Link>) -> (g: GFAGraph)
    requires
        segments.len() <= u32::MAX,
        links.len() <= u32::MAX,
    ensures
        g.wf(),
        g@ == with_links(with_segments(GraphView::empty(), segments@), links@),
{
    let mut g = GFAGraph::new();
    let mut i: usize = 0;
    while i < segments.len()
        invariant
            segments.len() <= u32::MAX,
            i <= segments.len(),
            g.wf(),
            g@.nodes.len() <= i,
            g@.edges.len() == 0,
            g@ == with_segments(GraphView::empty(), segments@.subrange(0, i as int)),
        decreases segments.len() - i,
    {
        let seg = &segments[i];
        g.add_node(vstd::slice::slice_to_vec(seg.name.as_slice()), seg.sequence.clone(), Provenance::Unspecified);
        proof {
            let upto = segments@.subrange(0, i + 1);
            assert(upto.drop_last() == segments@.subrange(0, i as int));
            assert(upto.last() == segments@[i as int]);
        }
        i += 1;
    }
    assert(segments@.subrange(0, segments.len() as int) == segments@);
    let ghost noded = g@;
    let mut k: usize = 0;
    while k < links.len()
        invariant
            links.len() <= u32::MAX,
            k <= links.len(),
            g.wf(),
            g@.edges.len() <= k,
            g@ == with_links(noded, links@.subrange(0, k as int)),
        decreases links.len() - k,
    {
        let link = &links[k];
        let _ = g.add_edge(link.from_segment.as_slice(), link.to_segment.as_slice());
        proof {
            let upto = links@.subrange(0, k + 1);
            assert(upto.drop_last() == links@.subrange(0, k as int));
            assert(upto.last() == links@[k as int]);
        }
        k += 1;
    }
    assert(links@.subrange(0, links.len() as int) == links@);
    g
}

/// A walk that starts at a slot of the graph stays among its slots.
pub proof fn lemma_walk_within(g: GraphView, walk: Seq<int>, a: int, b: int, k: int)
    requires
        g.wf(),
        walks(g.edges, walk, a, b),
        0 <= a < g.nodes.len(),
        0 <= k < walk.len(),
    ensures
        0 <= walk[k] < g.nodes.len(),
{
    if k > 0 {
        assert(joins(g.edges, walk[k - 1], walk[k]));
        let i = choose|i: int|
            0 <= i < g.edges.len() && (#[trigger] g.edges[i] == (walk[k - 1], walk[k]) || g.edges[i] == (
                walk[k],
                walk[k - 1],
            ));
        assert(0 <= g.edges[i].0 <= g.edges[i].1 < g.nodes.len());
    }
}

/// With every edge stored lower slot first, an edge joins two slots, in
/// whichever order, exactly if their canonical pair is stored.
pub proof fn lemma_joins_canonical(g: GraphView, a: int, b: int)
    requires
        g.wf(),
    ensures
        joins(g.edges, a, b) == g.has_edge(a, b),
        joins(g.edges, b, a) == g.has_edge(a, b),
        g.has_edge(b, a) == g.has_edge(a, b),
{
    let c = canonical(a, b);
    assert(canonical(b, a) == c);
    if g.edges.contains(c) {
        let i = g.edges.index_of(c);
        assert(g.edges[i] == (a, b) || g.edges[i] == (b, a));
    }
    if joins(g.edges, a, b) {
        let i = choose|i: int| 0 <= i < g.edges.len() && (#[trigger] g.edges[i] == (a, b) || g.edges[i] == (b, a));
        assert(g.edges[i].0 <= g.edges[i].1);
        assert(g.edges[i] == c);
    }
}

/// Inserting the edge between two slots a second time, with the slots in
/// either order, changes nothing: the edge count stays.
pub proof fn lemma_edge_twice(g: GraphView, a: int, b: int)
    ensures
        g.with_edge(a, b).with_edge(a, b) == g.with_edge(a, b),
        g.with_edge(a, b).with_edge(b, a) == g.with_edge(a, b),
        g.with_edge(a, b).with_edge(a, b).edges.len() == g.with_edge(a, b).edges.len(),
        g.with_edge(a, b).with_edge(b, a).edges.len() == g.with_edge(a, b).edges.len(),
{
    let c = canonical(a, b);
    assert(canonical(b, a) == c);
    let once = g.with_edge(a, b);
    if !g.has_edge(a, b) {
        assert(once.edges[g.edges.len() as int] == c);
    }
    assert(once.edges.contains(c));
}

} // verus!
