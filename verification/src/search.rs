//! What an extraction computes, as mathematics: the budget of a bubble, the
//! state of the breadth-first search, and the steps it takes.

use crate::gfa::{canonical, GraphView, NodeView, Provenance};
use crate::vcf::interior;
use vstd::prelude::*;

verus! {

/// Whether the graph has a node for every id of the list.
pub open spec fn all_known(g: GraphView, ids: Seq<Seq<u8>>) -> bool {
    forall|i: int| 0 <= i < ids.len() ==> g.has_id(#[trigger] ids[i])
}

/// Whether the graph has a node for every id of every traversal.
pub open spec fn bubble_known(g: GraphView, paths: Seq<Seq<Seq<u8>>>) -> bool {
    forall|t: int| 0 <= t < paths.len() ==> all_known(g, #[trigger] paths[t])
}

/// The summed length of the nodes that the ids name.
pub open spec fn path_length(g: GraphView, ids: Seq<Seq<u8>>) -> nat
    decreases ids.len(),
{
    if ids.len() == 0 {
        0
    } else {
        path_length(g, ids.drop_last()) + g.nodes[g.slot_of(ids.last())].len()
    }
}

/// The larger of two numbers.
pub open spec fn larger(a: nat, b: nat) -> nat {
    if a >= b {
        a
    } else {
        b
    }
}

/// The distance bound of a bubble: the greatest summed length of the interior
/// of one of its traversals.
pub open spec fn max_distance(g: GraphView, paths: Seq<Seq<Seq<u8>>>) -> nat
    decreases paths.len(),
{
    if paths.len() == 0 {
        0
    } else {
        larger(max_distance(g, paths.drop_last()), path_length(g, interior(paths.last())))
    }
}

/// The step bound of a bubble: the greatest number of interior ids of one of
/// its traversals.
pub open spec fn max_step(paths: Seq<Seq<Seq<u8>>>) -> nat
    decreases paths.len(),
{
    if paths.len() == 0 {
        0
    } else {
        larger(max_step(paths.drop_last()), interior(paths.last()).len())
    }
}

/// The two bounds of a search. A neighbour is admitted while either holds.
pub struct Bounds {
    pub distance: nat,
    pub step: nat,
}

/// The bounds that a bubble sets.
pub open spec fn bounds_of(g: GraphView, paths: Seq<Seq<Seq<u8>>>) -> Bounds {
    Bounds { distance: max_distance(g, paths), step: max_step(paths) }
}

/// A node that the search has reached: its slot in the whole graph, the
/// distance and the number of steps from a seed at which it was reached, and
/// the tag that it got.
pub struct Found {
    pub slot: int,
    pub dist: nat,
    pub step: nat,
    pub tag: Provenance,
}

/// The state of a search. `found` lists the nodes in the order in which they
/// were reached, which is the order of their slots in the subgraph and the
/// order in which they are expanded; the nodes from `cursor` on are the queue.
/// `edges` are the subgraph's edges, over positions in `found`.
pub struct Search {
    pub found: Seq<Found>,
    pub cursor: nat,
    pub edges: Seq<(int, int)>,
}

impl Search {
    /// The search before any seed.
    pub open spec fn start() -> Search {
        Search { found: Seq::empty(), cursor: 0, edges: Seq::empty() }
    }

    /// Whether the node in this slot of the whole graph was reached.
    pub open spec fn has(self, slot: int) -> bool {
        exists|i: int| 0 <= i < self.found.len() && (#[trigger] self.found[i]).slot == slot
    }

    /// The position in `found` of a slot that was reached.
    pub open spec fn position(self, slot: int) -> int {
        choose|i: int| 0 <= i < self.found.len() && (#[trigger] self.found[i]).slot == slot
    }

    /// Reaching a node: one that was reached before keeps its entry, a new
    /// one goes to the end of the queue.
    pub open spec fn discover(self, slot: int, dist: nat, step: nat, tag: Provenance) -> Search {
        if self.has(slot) {
            self
        } else {
            Search { found: self.found.push(Found { slot, dist, step, tag }), ..self }
        }
    }

    /// Inserting the edge between two positions, unless it is there.
    pub open spec fn link(self, a: int, b: int) -> Search {
        if self.edges.contains(canonical(a, b)) {
            self
        } else {
            Search { edges: self.edges.push(canonical(a, b)), ..self }
        }
    }

    /// The subgraph that the search has built.
    pub open spec fn subgraph(self, whole: GraphView) -> GraphView {
        GraphView {
            nodes: Seq::new(
                self.found.len(),
                |k: int|
                    NodeView {
                        id: whole.nodes[self.found[k].slot].id,
                        sequence: whole.nodes[self.found[k].slot].sequence,
                        status: self.found[k].tag,
                    },
            ),
            edges: self.edges,
        }
    }
}

/// The search after the ids of one traversal were seeded, in their order:
/// each at distance and step zero, with the traversal's tag.
pub open spec fn seed_path(whole: GraphView, st: Search, ids: Seq<Seq<u8>>, tag: Provenance) -> Search
    decreases ids.len(),
{
    if ids.len() == 0 {
        st
    } else {
        seed_path(whole, st, ids.drop_last(), tag).discover(whole.slot_of(ids.last()), 0, 0, tag)
    }
}

/// The tag of the traversal at an index: the first is the reference.
pub open spec fn tag_of(index: int) -> Provenance {
    if index == 0 {
        Provenance::Reference
    } else {
        Provenance::Alternate
    }
}

/// The search after every traversal was seeded, in their order.
pub open spec fn seed_all(whole: GraphView, paths: Seq<Seq<Seq<u8>>>) -> Search
    decreases paths.len(),
{
    if paths.len() == 0 {
        Search::start()
    } else {
        seed_path(whole, seed_all(whole, paths.drop_last()), paths.last(), tag_of(paths.len() - 1))
    }
}

/// The search after the node at position `at` looked at one neighbour: within
/// either bound the neighbour is reached and the edge to it inserted.
pub open spec fn consider(whole: GraphView, bounds: Bounds, st: Search, at: int, neighbor: int) -> Search {
    let from = st.found[at];
    let dist = from.dist + whole.nodes[from.slot].len();
    let step = from.step + 1;
    if dist <= bounds.distance || step <= bounds.step {
        let reached = st.discover(neighbor, dist, step, Provenance::Reference);
        reached.link(at, reached.position(neighbor))
    } else {
        st
    }
}

/// The search after the node at position `at` looked at these neighbours, in
/// their order.
pub open spec fn expand(whole: GraphView, bounds: Bounds, st: Search, at: int, neighbors: Seq<int>) -> Search
    decreases neighbors.len(),
{
    if neighbors.len() == 0 {
        st
    } else {
        consider(whole, bounds, expand(whole, bounds, st, at, neighbors.drop_last()), at, neighbors.last())
    }
}

/// The search after the node at the head of the queue was expanded.
pub open spec fn visit(whole: GraphView, bounds: Bounds, st: Search) -> Search {
    let grown = expand(whole, bounds, st, st.cursor as int, whole.neighbors(st.found[st.cursor as int].slot));
    Search { cursor: st.cursor + 1, ..grown }
}

/// The search run until the queue is empty. No search expands more nodes
/// than the whole graph has, which is what makes this a definition.
pub open spec fn run(whole: GraphView, bounds: Bounds, st: Search) -> Search
    decreases whole.nodes.len() - st.cursor,
{
    if st.cursor < st.found.len() && st.cursor < whole.nodes.len() {
        run(whole, bounds, visit(whole, bounds, st))
    } else {
        st
    }
}

/// The finished search for a bubble.
pub open spec fn search(whole: GraphView, paths: Seq<Seq<Seq<u8>>>) -> Search {
    run(whole, bounds_of(whole, paths), seed_all(whole, paths))
}

/// The subgraph that is extracted for a bubble.
pub open spec fn extraction(whole: GraphView, paths: Seq<Seq<Seq<u8>>>) -> GraphView {
    search(whole, paths).subgraph(whole)
}

} // verus!
