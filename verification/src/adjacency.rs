//! The adjacency structure of a store: an undirected `petgraph` graph whose
//! node weights are the node ids. What this file says of `petgraph` is
//! believed, not proved: each function marked `external_body` makes one call
//! into `petgraph` and states what that call does to the graph's contents or
//! what it returns.

use petgraph::graph::NodeIndex;
use petgraph::visit::EdgeRef;
use vstd::prelude::*;

verus! {

/// `petgraph::graph::Graph`. The proofs see nothing inside a graph; what it
/// holds goes by the names `graph_nodes` and `graph_edges`.
#[verifier::external_type_specification]
#[verifier::external_body]
#[verifier::reject_recursive_types(N)]
#[verifier::reject_recursive_types(E)]
#[verifier::reject_recursive_types(Ty)]
#[verifier::reject_recursive_types(Ix)]
pub struct ExGraph<N, E, Ty, Ix>(petgraph::graph::Graph<N, E, Ty, Ix>);

/// `petgraph::Undirected`, the marker of graphs whose edges have no
/// direction.
#[verifier::external_type_specification]
#[verifier::external_body]
pub struct ExUndirected(petgraph::Undirected);

/// The node weights of the graph, by node index.
pub uninterp spec fn graph_nodes(g: &petgraph::graph::UnGraph<Vec<u8>, ()>) -> Seq<Seq<u8>>;

/// The edges of the graph as (source, target) pairs, by edge index, which is
/// the order in which they were added.
pub uninterp spec fn graph_edges(g: &petgraph::graph::UnGraph<Vec<u8>, ()>) -> Seq<(int, int)>;

/// `Graph::new_undirected`: a graph without nodes or edges.
#[verifier::external_body]
pub(crate) fn empty_graph() -> (g: petgraph::graph::UnGraph<Vec<u8>, ()>)
    ensures
        graph_nodes(&g) == Seq::<Seq<u8>>::empty(),
        graph_edges(&g) == Seq::<(int, int)>::empty(),
{
    petgraph::graph::Graph::new_undirected()
}

/// `Graph::node_count`: the number of nodes.
#[verifier::external_body]
pub(crate) fn count_nodes(g: &petgraph::graph::UnGraph<Vec<u8>, ()>) -> (n: usize)
    ensures
        n == graph_nodes(g).len(),
{
    g.node_count()
}

/// `Graph::edge_count`: the number of edges, parallel ones counted each.
#[verifier::external_body]
pub(crate) fn count_edges(g: &petgraph::graph::UnGraph<Vec<u8>, ()>) -> (n: usize)
    ensures
        n == graph_edges(g).len(),
{
    g.edge_count()
}

/// `Graph::add_node`: appends a node and returns its index. The call panics
/// once the index would be `u32::MAX`, which the precondition leaves out.
#[verifier::external_body]
pub(crate) fn push_node(g: &mut petgraph::graph::UnGraph<Vec<u8>, ()>, id: Vec<u8>) -> (slot: usize)
    requires
        graph_nodes(old(g)).len() < u32::MAX,
    ensures
        graph_nodes(final(g)) == graph_nodes(old(g)).push(id@),
        graph_edges(final(g)) == graph_edges(old(g)),
        slot == graph_nodes(old(g)).len(),
{
    g.add_node(id).index()
}

/// `Graph::add_edge`: appends the edge from `a` to `b`, also when one between
/// them exists. The call panics on a missing node and once the edge index
/// would be `u32::MAX`; the precondition leaves both out.
#[verifier::external_body]
pub(crate) fn push_edge(g: &mut petgraph::graph::UnGraph<Vec<u8>, ()>, a: usize, b: usize)
    requires
        a < graph_nodes(old(g)).len(),
        b < graph_nodes(old(g)).len(),
        graph_nodes(old(g)).len() <= u32::MAX,
        graph_edges(old(g)).len() < u32::MAX,
    ensures
        graph_nodes(final(g)) == graph_nodes(old(g)),
        graph_edges(final(g)) == graph_edges(old(g)).push((a as int, b as int)),
{
    g.add_edge(NodeIndex::new(a), NodeIndex::new(b), ());
}

/// Whether some edge of `edges` joins `a` and `b`, in either direction.
pub open spec fn joins(edges: Seq<(int, int)>, a: int, b: int) -> bool {
    exists|i: int| 0 <= i < edges.len() && (#[trigger] edges[i] == (a, b) || edges[i] == (b, a))
}

/// `Graph::contains_edge` on an undirected graph: whether an edge joins `a`
/// and `b`, whichever of the two was named first when it was added.
#[verifier::external_body]
pub(crate) fn has_edge(g: &petgraph::graph::UnGraph<Vec<u8>, ()>, a: usize, b: usize) -> (found: bool)
    requires
        a < graph_nodes(g).len(),
        b < graph_nodes(g).len(),
        graph_nodes(g).len() <= u32::MAX,
    ensures
        found == joins(graph_edges(g), a as int, b as int),
{
    g.contains_edge(NodeIndex::new(a), NodeIndex::new(b))
}

/// The targets of the edges that were added with `a` as their source, the
/// latest edge first.
pub open spec fn targets_from(edges: Seq<(int, int)>, a: int) -> Seq<int>
    decreases edges.len(),
{
    if edges.len() == 0 {
        Seq::empty()
    } else {
        let e = edges.last();
        let earlier = targets_from(edges.drop_last(), a);
        if e.0 == a {
            seq![e.1] + earlier
        } else {
            earlier
        }
    }
}

/// The sources of the edges that were added with `a` as their target and
/// another node as their source, the latest edge first.
pub open spec fn sources_into(edges: Seq<(int, int)>, a: int) -> Seq<int>
    decreases edges.len(),
{
    if edges.len() == 0 {
        Seq::empty()
    } else {
        let e = edges.last();
        let earlier = sources_into(edges.drop_last(), a);
        if e.1 == a && e.0 != a {
            seq![e.0] + earlier
        } else {
            earlier
        }
    }
}

/// The neighbours of `a` in the order in which an undirected graph lists
/// them: first along the edges added from `a`, then along those added towards
/// `a`, each group latest first; a loop at `a` counts once.
pub open spec fn neighbor_slots(edges: Seq<(int, int)>, a: int) -> Seq<int> {
    targets_from(edges, a) + sources_into(edges, a)
}

/// `Graph::neighbors` on an undirected graph, each neighbour by its index.
#[verifier::external_body]
pub(crate) fn adjacent(g: &petgraph::graph::UnGraph<Vec<u8>, ()>, a: usize) -> (out: Vec<usize>)
    requires
        a < graph_nodes(g).len(),
        graph_nodes(g).len() <= u32::MAX,
    ensures
        out@.map_values(|s: usize| s as int) == neighbor_slots(graph_edges(g), a as int),
{
    g.neighbors(NodeIndex::new(a)).map(|n| n.index()).collect()
}

/// `Graph::node_indices`: every node index, ascending.
#[verifier::external_body]
pub(crate) fn node_slots(g: &petgraph::graph::UnGraph<Vec<u8>, ()>) -> (out: Vec<usize>)
    ensures
        out@ == Seq::new(graph_nodes(g).len(), |i: int| i as usize),
{
    g.node_indices().map(|n| n.index()).collect()
}

/// `Graph::edge_references`: the endpoints of every edge, in edge index order.
#[verifier::external_body]
pub(crate) fn edge_pairs(g: &petgraph::graph::UnGraph<Vec<u8>, ()>) -> (out: Vec<(usize, usize)>)
    ensures
        out@.map_values(|e: (usize, usize)| (e.0 as int, e.1 as int)) == graph_edges(g),
{
    g.edge_references().map(|e| (e.source().index(), e.target().index())).collect()
}

/// Whether the nodes of `walk` lead from `a` to `b`, each joined to the next
/// by an edge. A node alone is a walk from itself to itself.
pub open spec fn walks(edges: Seq<(int, int)>, walk: Seq<int>, a: int, b: int) -> bool {
    &&& walk.len() > 0
    &&& walk.first() == a
    &&& walk.last() == b
    &&& forall|k: int| 0 <= k < walk.len() - 1 ==> joins(edges, #[trigger] walk[k], walk[k + 1])
}

/// Whether a walk along the edges leads from `a` to `b`. A node is connected
/// to itself.
pub open spec fn connected(edges: Seq<(int, int)>, a: int, b: int) -> bool {
    exists|walk: Seq<int>| #[trigger] walks(edges, walk, a, b)
}

/// Whether no node of a lower index is connected to the node `i`: then `i`
/// is the first node of its component.
pub open spec fn leads_component(edges: Seq<(int, int)>, i: int) -> bool {
    forall|j: int| 0 <= j < i ==> !#[trigger] connected(edges, i, j)
}

/// The number of connected components of a graph with `nodes` nodes and the
/// edges `edges`: as many as there are first nodes of a component.
pub open spec fn component_count(nodes: nat, edges: Seq<(int, int)>) -> nat {
    Set::new(|i: int| 0 <= i < nodes && leads_component(edges, i)).len()
}

/// `petgraph::algo::connected_components`: the number of connected
/// components, the edges taken without their direction.
#[verifier::external_body]
pub(crate) fn components(g: &petgraph::graph::UnGraph<Vec<u8>, ()>) -> (n: usize)
    ensures
        n == component_count(graph_nodes(g).len(), graph_edges(g)),
{
    petgraph::algo::connected_components(g)
}

/// What `petgraph::algo::astar` finds from `start` to `goal` in a graph with
/// `nodes` nodes and the edges `edges`, every edge at cost one and with the
/// estimate zero: the nodes along the path, or `None` where it finds none.
/// The search takes no random choice, so that the same graph gives the same
/// path; which of several shortest paths that is, only this name says.
pub uninterp spec fn astar_route(nodes: nat, edges: Seq<(int, int)>, start: int, goal: int) -> Option<Seq<int>>;

/// Whether `path` is a shortest walk from `a` to `b`: a walk, and no walk
/// from `a` to `b` has fewer nodes.
pub open spec fn shortest_walk(edges: Seq<(int, int)>, path: Seq<int>, a: int, b: int) -> bool {
    &&& walks(edges, path, a, b)
    &&& forall|other: Seq<int>| #[trigger] walks(edges, other, a, b) ==> path.len() <= other.len()
}

/// Whether a slot is the goal of a path.
pub(crate) fn is_goal(slot: usize, goal: usize) -> (at_goal: bool)
    ensures
        at_goal == (slot == goal),
{
    slot == goal
}

/// What a path pays for an edge: one.
pub(crate) fn edge_cost() -> (cost: u64)
    ensures
        cost == 1,
{
    1
}

/// What a path is estimated to pay from a node to the goal: nothing, which
/// never overestimates.
pub(crate) fn estimate() -> (cost: u64)
    ensures
        cost == 0,
{
    0
}

/// `petgraph::algo::astar` with the goal, the edge cost and the estimate
/// that `is_goal`, `edge_cost` and `estimate` give. With every edge at the
/// same cost and an estimate that never overestimates, the path that it
/// returns is a shortest walk from `start` to `goal`; it returns none only
/// where no walk leads there.
#[verifier::external_body]
pub(crate) fn route(g: &petgraph::graph::UnGraph<Vec<u8>, ()>, start: usize, goal: usize) -> (out: Option<Vec<usize>>)
    requires
        start < graph_nodes(g).len(),
        goal < graph_nodes(g).len(),
        graph_nodes(g).len() <= u32::MAX,
    ensures
        match out {
            Some(path) => {
                &&& astar_route(graph_nodes(g).len(), graph_edges(g), start as int, goal as int) == Some(
                    path@.map_values(|s: usize| s as int),
                )
                &&& shortest_walk(graph_edges(g), path@.map_values(|s: usize| s as int), start as int, goal as int)
            },
            None => {
                &&& astar_route(graph_nodes(g).len(), graph_edges(g), start as int, goal as int) is None
                &&& !connected(graph_edges(g), start as int, goal as int)
            },
        },
{
    petgraph::algo::astar(g, NodeIndex::new(start), |n| is_goal(n.index(), goal), |_| edge_cost(), |_| estimate())
        .map(|(_, path)| path.into_iter().map(|n| n.index()).collect())
}

} // verus!
