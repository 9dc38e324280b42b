//! What holds of every search, whatever the graph and the bubble.

use crate::adjacency::{sources_into, targets_from};
use crate::gfa::{canonical, GraphView, Provenance};
use crate::search::{
    bounds_of, bubble_known, consider, expand, extraction, run, search, seed_all, seed_path, tag_of, visit, Bounds,
    Search,
};
use vstd::prelude::*;

verus! {

impl Search {
    /// What every state of a search over `whole` satisfies: the nodes that
    /// were reached are nodes of the whole graph, each reached once and at a
    /// step no greater than its position; every edge joins two of them, lower
    /// position first, and stands for an edge of the whole graph; no edge
    /// occurs twice.
    pub open spec fn inv(self, whole: GraphView) -> bool {
        &&& self.cursor <= self.found.len()
        &&& forall|k: int|
            0 <= k < self.found.len() ==> 0 <= (#[trigger] self.found[k]).slot < whole.nodes.len()
                && self.found[k].step <= k
        &&& forall|i: int, j: int|
            0 <= i < j < self.found.len() ==> (#[trigger] self.found[i]).slot != (#[trigger] self.found[j]).slot
        &&& forall|k: int|
            0 <= k < self.edges.len() ==> {
                let e = #[trigger] self.edges[k];
                &&& 0 <= e.0 <= e.1 < self.found.len()
                &&& whole.has_edge(self.found[e.0].slot, self.found[e.1].slot)
            }
        &&& self.edges.no_duplicates()
    }

    /// Whether this state continues an earlier one: what was reached then is
    /// still there, in the same positions.
    pub open spec fn extends(self, earlier: Search) -> bool {
        &&& earlier.found.len() <= self.found.len()
        &&& forall|k: int| 0 <= k < earlier.found.len() ==> self.found[k] == #[trigger] earlier.found[k]
    }
}

/// A list of distinct numbers below `n` has at most `n` entries.
pub proof fn lemma_distinct_below(s: Seq<int>, n: nat)
    requires
        s.no_duplicates(),
        forall|i: int| 0 <= i < s.len() ==> 0 <= #[trigger] s[i] < n,
    ensures
        s.len() <= n,
{
    let range = vstd::set_lib::set_int_range(0, n as int);
    vstd::set_lib::lemma_int_range(0, n as int);
    assert forall|x: int| s.to_set().contains(x) implies range.contains(x) by {
        let i = choose|i: int| 0 <= i < s.len() && s[i] == x;
        assert(0 <= s[i] < n);
    }
    vstd::set_lib::lemma_len_subset(s.to_set(), range);
    s.unique_seq_to_set();
}

/// A search reaches no more nodes than the whole graph has.
pub proof fn lemma_found_bounded(whole: GraphView, st: Search)
    requires
        st.inv(whole),
    ensures
        st.found.len() <= whole.nodes.len(),
{
    let slots = Seq::new(st.found.len(), |k: int| st.found[k].slot);
    assert forall|i: int, j: int| 0 <= i < slots.len() && 0 <= j < slots.len() && i != j implies slots[i]
        != slots[j] by {
        if i < j {
            assert(st.found[i].slot != st.found[j].slot);
        } else {
            assert(st.found[j].slot != st.found[i].slot);
        }
    }
    assert forall|i: int| 0 <= i < slots.len() implies 0 <= #[trigger] slots[i] < whole.nodes.len() by {
        assert(0 <= st.found[i].slot < whole.nodes.len());
    }
    lemma_distinct_below(slots, whole.nodes.len());
}

/// A search inserts no more edges than the whole graph has.
pub proof fn lemma_edges_bounded(whole: GraphView, st: Search)
    requires
        st.inv(whole),
    ensures
        st.edges.len() <= whole.edges.len(),
{
    let origin = Seq::new(
        st.edges.len(),
        |k: int| whole.edges.index_of(canonical(st.found[st.edges[k].0].slot, st.found[st.edges[k].1].slot)),
    );
    assert forall|k: int| 0 <= k < origin.len() implies 0 <= #[trigger] origin[k] < whole.edges.len()
        && whole.edges[origin[k]] == canonical(
        st.found[st.edges[k].0].slot,
        st.found[st.edges[k].1].slot,
    ) by {
        let e = st.edges[k];
        assert(whole.has_edge(st.found[e.0].slot, st.found[e.1].slot));
    }
    assert forall|i: int, j: int| 0 <= i < origin.len() && 0 <= j < origin.len() && i != j implies origin[i]
        != origin[j] by {
        let e = st.edges[i];
        let f = st.edges[j];
        if origin[i] == origin[j] {
            assert(whole.edges[origin[i]] == whole.edges[origin[j]]);
            lemma_same_pair(st, whole, e, f);
            assert(e == f);
        }
    }
    lemma_distinct_below(origin, whole.edges.len());
}

/// Two pairs of positions whose nodes make the same pair of slots are the
/// same pair.
proof fn lemma_same_pair(st: Search, whole: GraphView, e: (int, int), f: (int, int))
    requires
        st.inv(whole),
        0 <= e.0 <= e.1 < st.found.len(),
        0 <= f.0 <= f.1 < st.found.len(),
        canonical(st.found[e.0].slot, st.found[e.1].slot) == canonical(st.found[f.0].slot, st.found[f.1].slot),
    ensures
        e == f,
{
    lemma_position_unique(st, whole, e.0, f.0);
    lemma_position_unique(st, whole, e.0, f.1);
    lemma_position_unique(st, whole, e.1, f.0);
    lemma_position_unique(st, whole, e.1, f.1);
}

/// Two positions with the same slot are the same position.
pub proof fn lemma_position_unique(st: Search, whole: GraphView, i: int, j: int)
    requires
        st.inv(whole),
        0 <= i < st.found.len(),
        0 <= j < st.found.len(),
    ensures
        st.found[i].slot == st.found[j].slot ==> i == j,
{
    if i < j {
        assert(st.found[i].slot != st.found[j].slot);
    } else if j < i {
        assert(st.found[j].slot != st.found[i].slot);
    }
}

/// The position of a node that was reached is where its slot stands.
pub proof fn lemma_position(st: Search, whole: GraphView, i: int)
    requires
        st.inv(whole),
        0 <= i < st.found.len(),
    ensures
        st.has(st.found[i].slot),
        st.position(st.found[i].slot) == i,
{
    let p = st.position(st.found[i].slot);
    lemma_position_unique(st, whole, i, p);
}

/// Reaching a node of the whole graph keeps the invariant and what was
/// reached before.
pub proof fn lemma_discover(whole: GraphView, st: Search, slot: int, dist: nat, step: nat, tag: Provenance)
    requires
        st.inv(whole),
        0 <= slot < whole.nodes.len(),
        step <= st.found.len(),
    ensures
        st.discover(slot, dist, step, tag).inv(whole),
        st.discover(slot, dist, step, tag).extends(st),
        st.discover(slot, dist, step, tag).has(slot),
        st.discover(slot, dist, step, tag).cursor == st.cursor,
        st.discover(slot, dist, step, tag).edges == st.edges,
{
    let next = st.discover(slot, dist, step, tag);
    if !st.has(slot) {
        assert(next.found[st.found.len() as int].slot == slot);
        assert forall|i: int, j: int| 0 <= i < j < next.found.len() implies (#[trigger] next.found[i]).slot != (
        #[trigger] next.found[j]).slot by {
            if j == st.found.len() {
                assert(st.found[i].slot != slot);
            } else {
                assert(st.found[i].slot != st.found[j].slot);
            }
        }
        assert forall|k: int| 0 <= k < next.edges.len() implies {
            let e = #[trigger] next.edges[k];
            &&& 0 <= e.0 <= e.1 < next.found.len()
            &&& whole.has_edge(next.found[e.0].slot, next.found[e.1].slot)
        } by {
            let e = st.edges[k];
            assert(next.found[e.0] == st.found[e.0]);
            assert(next.found[e.1] == st.found[e.1]);
        }
    }
}

/// Inserting an edge that the whole graph has between two nodes that were
/// reached keeps the invariant.
pub proof fn lemma_link(whole: GraphView, st: Search, a: int, b: int)
    requires
        st.inv(whole),
        0 <= a < st.found.len(),
        0 <= b < st.found.len(),
        whole.has_edge(st.found[a].slot, st.found[b].slot),
    ensures
        st.link(a, b).inv(whole),
        st.link(a, b).found == st.found,
        st.link(a, b).cursor == st.cursor,
{
    let next = st.link(a, b);
    let c = canonical(a, b);
    assert(canonical(st.found[c.0].slot, st.found[c.1].slot) == canonical(st.found[a].slot, st.found[b].slot));
    if !st.edges.contains(c) {
        assert forall|i: int, j: int|
            0 <= i < next.edges.len() && 0 <= j < next.edges.len() && i != j implies next.edges[i]
            != next.edges[j] by {
            if i == st.edges.len() {
                assert(st.edges[j] == next.edges[j]);
            }
            if j == st.edges.len() {
                assert(st.edges[i] == next.edges[i]);
            }
        }
        assert forall|k: int| 0 <= k < next.edges.len() implies {
            let e = #[trigger] next.edges[k];
            &&& 0 <= e.0 <= e.1 < next.found.len()
            &&& whole.has_edge(next.found[e.0].slot, next.found[e.1].slot)
        } by {
            if k < st.edges.len() {
                assert(next.edges[k] == st.edges[k]);
            }
        }
    }
}

/// Looking at a neighbour in the whole graph keeps the invariant and what
/// was reached before.
pub proof fn lemma_consider(whole: GraphView, bounds: Bounds, st: Search, at: int, neighbor: int)
    requires
        st.inv(whole),
        0 <= at < st.found.len(),
        0 <= neighbor < whole.nodes.len(),
        whole.has_edge(st.found[at].slot, neighbor),
    ensures
        consider(whole, bounds, st, at, neighbor).inv(whole),
        consider(whole, bounds, st, at, neighbor).extends(st),
        consider(whole, bounds, st, at, neighbor).cursor == st.cursor,
{
    let from = st.found[at];
    let dist = from.dist + whole.nodes[from.slot].len();
    let step = from.step + 1;
    if dist <= bounds.distance || step <= bounds.step {
        lemma_discover(whole, st, neighbor, dist, step, Provenance::Reference);
        let reached = st.discover(neighbor, dist, step, Provenance::Reference);
        let p = reached.position(neighbor);
        assert(reached.found[at] == st.found[at]);
        lemma_link(whole, reached, at, p);
    }
}

/// Every entry of `targets_from` is the target of an edge from `a`.
proof fn lemma_targets_from(edges: Seq<(int, int)>, a: int, i: int)
    requires
        0 <= i < targets_from(edges, a).len(),
    ensures
        edges.contains((a, targets_from(edges, a)[i])),
    decreases edges.len(),
{
    let e = edges.last();
    let earlier = edges.drop_last();
    if e.0 == a && i == 0 {
        assert(edges[edges.len() - 1] == (a, e.1));
    } else {
        let j = if e.0 == a { i - 1 } else { i };
        lemma_targets_from(earlier, a, j);
        let k = earlier.index_of((a, targets_from(earlier, a)[j]));
        assert(edges[k] == earlier[k]);
    }
}

/// Every entry of `sources_into` is the source of an edge into `a`.
proof fn lemma_sources_into(edges: Seq<(int, int)>, a: int, i: int)
    requires
        0 <= i < sources_into(edges, a).len(),
    ensures
        edges.contains((sources_into(edges, a)[i], a)),
    decreases edges.len(),
{
    let e = edges.last();
    let earlier = edges.drop_last();
    if e.1 == a && e.0 != a && i == 0 {
        assert(edges[edges.len() - 1] == (e.0, a));
    } else {
        let j = if e.1 == a && e.0 != a { i - 1 } else { i };
        lemma_sources_into(earlier, a, j);
        let k = earlier.index_of((sources_into(earlier, a)[j], a));
        assert(edges[k] == earlier[k]);
    }
}

/// Every neighbour of a slot is a slot of the graph, and an edge joins the
/// two.
pub proof fn lemma_neighbors_joined(g: GraphView, slot: int)
    requires
        g.wf(),
    ensures
        forall|i: int|
            0 <= i < g.neighbors(slot).len() ==> 0 <= #[trigger] g.neighbors(slot)[i] < g.nodes.len()
                && g.has_edge(slot, g.neighbors(slot)[i]),
{
    assert forall|i: int| 0 <= i < g.neighbors(slot).len() implies 0 <= #[trigger] g.neighbors(slot)[i]
        < g.nodes.len() && g.has_edge(slot, g.neighbors(slot)[i]) by {
        let out = targets_from(g.edges, slot);
        let x = g.neighbors(slot)[i];
        if i < out.len() {
            lemma_targets_from(g.edges, slot, i);
            let k = g.edges.index_of((slot, x));
            assert(g.edges[k].0 <= g.edges[k].1);
        } else {
            lemma_sources_into(g.edges, slot, i - out.len());
            let k = g.edges.index_of((x, slot));
            assert(g.edges[k].0 <= g.edges[k].1);
        }
    }
}

/// Whether every entry of `neighbors` is a slot of the whole graph that an
/// edge joins to `slot`.
pub open spec fn all_joined(whole: GraphView, slot: int, neighbors: Seq<int>) -> bool {
    forall|i: int|
        0 <= i < neighbors.len() ==> 0 <= #[trigger] neighbors[i] < whole.nodes.len() && whole.has_edge(
            slot,
            neighbors[i],
        )
}

/// Expanding a node keeps the invariant and what was reached before.
pub proof fn lemma_expand(whole: GraphView, bounds: Bounds, st: Search, at: int, neighbors: Seq<int>)
    requires
        st.inv(whole),
        0 <= at < st.found.len(),
        all_joined(whole, st.found[at].slot, neighbors),
    ensures
        expand(whole, bounds, st, at, neighbors).inv(whole),
        expand(whole, bounds, st, at, neighbors).extends(st),
        expand(whole, bounds, st, at, neighbors).cursor == st.cursor,
    decreases neighbors.len(),
{
    if neighbors.len() > 0 {
        let earlier = neighbors.drop_last();
        assert forall|i: int| 0 <= i < earlier.len() implies 0 <= #[trigger] earlier[i] < whole.nodes.len()
            && whole.has_edge(st.found[at].slot, earlier[i]) by {
            assert(earlier[i] == neighbors[i]);
        }
        lemma_expand(whole, bounds, st, at, earlier);
        let mid = expand(whole, bounds, st, at, earlier);
        assert(mid.found[at] == st.found[at]);
        assert(neighbors.last() == neighbors[neighbors.len() - 1]);
        lemma_consider(whole, bounds, mid, at, neighbors.last());
    }
}

/// Expanding the head of the queue keeps the invariant and what was reached
/// before.
pub proof fn lemma_visit(whole: GraphView, bounds: Bounds, st: Search)
    requires
        whole.wf(),
        st.inv(whole),
        st.cursor < st.found.len(),
    ensures
        visit(whole, bounds, st).inv(whole),
        visit(whole, bounds, st).extends(st),
        visit(whole, bounds, st).cursor == st.cursor + 1,
{
    let slot = st.found[st.cursor as int].slot;
    lemma_neighbors_joined(whole, slot);
    lemma_expand(whole, bounds, st, st.cursor as int, whole.neighbors(slot));
}

/// A search that runs to its end keeps the invariant and what was reached
/// before, and leaves the queue empty.
pub proof fn lemma_run(whole: GraphView, bounds: Bounds, st: Search)
    requires
        whole.wf(),
        st.inv(whole),
    ensures
        run(whole, bounds, st).inv(whole),
        run(whole, bounds, st).extends(st),
        run(whole, bounds, st).cursor == run(whole, bounds, st).found.len(),
    decreases whole.nodes.len() - st.cursor,
{
    lemma_found_bounded(whole, st);
    if st.cursor < st.found.len() {
        lemma_visit(whole, bounds, st);
        lemma_run(whole, bounds, visit(whole, bounds, st));
    }
}

/// Seeding a traversal whose ids the whole graph knows keeps the invariant
/// and what was reached before, and reaches every id of the traversal.
pub proof fn lemma_seed_path(whole: GraphView, st: Search, ids: Seq<Seq<u8>>, tag: Provenance)
    requires
        st.inv(whole),
        forall|i: int| 0 <= i < ids.len() ==> whole.has_id(#[trigger] ids[i]),
    ensures
        seed_path(whole, st, ids, tag).inv(whole),
        seed_path(whole, st, ids, tag).extends(st),
        seed_path(whole, st, ids, tag).cursor == st.cursor,
        seed_path(whole, st, ids, tag).edges == st.edges,
        forall|i: int| 0 <= i < ids.len() ==> seed_path(whole, st, ids, tag).has(whole.slot_of(#[trigger] ids[i])),
    decreases ids.len(),
{
    if ids.len() > 0 {
        let earlier = ids.drop_last();
        assert forall|i: int| 0 <= i < earlier.len() implies whole.has_id(#[trigger] earlier[i]) by {
            assert(earlier[i] == ids[i]);
        }
        lemma_seed_path(whole, st, earlier, tag);
        let mid = seed_path(whole, st, earlier, tag);
        assert(whole.has_id(ids[ids.len() - 1]));
        let slot = whole.slot_of(ids.last());
        lemma_discover(whole, mid, slot, 0, 0, tag);
        let next = mid.discover(slot, 0, 0, tag);
        assert forall|i: int| 0 <= i < ids.len() implies next.has(whole.slot_of(#[trigger] ids[i])) by {
            if i < earlier.len() {
                assert(earlier[i] == ids[i]);
                lemma_extends_has(next, mid, whole.slot_of(ids[i]));
            }
        }
    }
}

/// What an earlier state reached, a state that continues it has reached.
pub proof fn lemma_extends_has(later: Search, earlier: Search, slot: int)
    requires
        later.extends(earlier),
        earlier.has(slot),
    ensures
        later.has(slot),
{
    let i = earlier.position(slot);
    assert(later.found[i] == earlier.found[i]);
}

/// Seeding a bubble whose ids the whole graph knows gives a state that
/// satisfies the invariant and has reached every id of every traversal.
pub proof fn lemma_seed_all(whole: GraphView, paths: Seq<Seq<Seq<u8>>>)
    requires
        forall|t: int, i: int|
            0 <= t < paths.len() && 0 <= i < paths[t].len() ==> whole.has_id(#[trigger] paths[t][i]),
    ensures
        seed_all(whole, paths).inv(whole),
        seed_all(whole, paths).cursor == 0,
        seed_all(whole, paths).edges == Seq::<(int, int)>::empty(),
        forall|t: int, i: int|
            0 <= t < paths.len() && 0 <= i < paths[t].len() ==> seed_all(whole, paths).has(
                whole.slot_of(#[trigger] paths[t][i]),
            ),
    decreases paths.len(),
{
    if paths.len() > 0 {
        let earlier = paths.drop_last();
        assert forall|t: int, i: int| 0 <= t < earlier.len() && 0 <= i < earlier[t].len() implies whole.has_id(
            #[trigger] earlier[t][i],
        ) by {
            assert(earlier[t] == paths[t]);
        }
        lemma_seed_all(whole, earlier);
        let mid = seed_all(whole, earlier);
        let last = paths.last();
        assert(last == paths[paths.len() - 1]);
        assert forall|i: int| 0 <= i < last.len() implies whole.has_id(#[trigger] last[i]) by {
            assert(last[i] == paths[paths.len() - 1][i]);
        }
        lemma_seed_path(whole, mid, last, tag_of(paths.len() - 1));
        let next = seed_all(whole, paths);
        assert forall|t: int, i: int| 0 <= t < paths.len() && 0 <= i < paths[t].len() implies next.has(
            whole.slot_of(#[trigger] paths[t][i]),
        ) by {
            if t < earlier.len() {
                assert(earlier[t] == paths[t]);
                assert(mid.has(whole.slot_of(earlier[t][i])));
                lemma_extends_has(next, mid, whole.slot_of(paths[t][i]));
            } else {
                assert(paths[t][i] == last[i]);
            }
        }
    }
}

/// The subgraph of a search over a well-formed graph is well-formed.
pub proof fn lemma_subgraph_wf(whole: GraphView, st: Search)
    requires
        whole.wf(),
        st.inv(whole),
    ensures
        st.subgraph(whole).wf(),
{
    let sub = st.subgraph(whole);
    lemma_found_bounded(whole, st);
    lemma_edges_bounded(whole, st);
    assert forall|i: int, j: int| 0 <= i < j < sub.nodes.len() implies (#[trigger] sub.nodes[i]).id != (
    #[trigger] sub.nodes[j]).id by {
        let a = st.found[i].slot;
        let b = st.found[j].slot;
        assert(a != b);
        if a < b {
            assert(whole.nodes[a].id != whole.nodes[b].id);
        } else {
            assert(whole.nodes[b].id != whole.nodes[a].id);
        }
    }
}

/// In the subgraph of a search, the node that was reached at a position has
/// that position as its slot.
pub proof fn lemma_subgraph_slot(whole: GraphView, st: Search, i: int)
    requires
        whole.wf(),
        st.inv(whole),
        0 <= i < st.found.len(),
    ensures
        st.subgraph(whole).has_id(whole.nodes[st.found[i].slot].id),
        st.subgraph(whole).slot_of(whole.nodes[st.found[i].slot].id) == i,
{
    let sub = st.subgraph(whole);
    let id = whole.nodes[st.found[i].slot].id;
    lemma_subgraph_wf(whole, st);
    assert(sub.nodes[i].id == id);
    let j = sub.slot_of(id);
    if i < j {
        assert(sub.nodes[i].id != sub.nodes[j].id);
    } else if j < i {
        assert(sub.nodes[j].id != sub.nodes[i].id);
    }
}

/// The subgraph of a search has a node's id exactly if the search reached
/// the node.
pub proof fn lemma_subgraph_has(whole: GraphView, st: Search, slot: int)
    requires
        whole.wf(),
        st.inv(whole),
        0 <= slot < whole.nodes.len(),
    ensures
        st.subgraph(whole).has_id(whole.nodes[slot].id) == st.has(slot),
{
    let sub = st.subgraph(whole);
    let id = whole.nodes[slot].id;
    if st.has(slot) {
        lemma_subgraph_slot(whole, st, st.position(slot));
    }
    if sub.has_id(id) {
        let k = sub.slot_of(id);
        let other = st.found[k].slot;
        assert(sub.nodes[k].id == whole.nodes[other].id);
        if other < slot {
            assert(whole.nodes[other].id != whole.nodes[slot].id);
        } else if slot < other {
            assert(whole.nodes[slot].id != whole.nodes[other].id);
        }
        assert(st.found[k].slot == slot);
    }
}

/// The slot of an id that the graph has is the one slot that holds the id.
pub proof fn lemma_slot_of(g: GraphView, slot: int)
    requires
        g.wf(),
        0 <= slot < g.nodes.len(),
    ensures
        g.has_id(g.nodes[slot].id),
        g.slot_of(g.nodes[slot].id) == slot,
{
    let other = g.slot_of(g.nodes[slot].id);
    if other < slot {
        assert(g.nodes[other].id != g.nodes[slot].id);
    } else if slot < other {
        assert(g.nodes[slot].id != g.nodes[other].id);
    }
}

/// The finished search for a bubble whose ids the whole graph knows: it
/// satisfies the invariant, has reached every seed, and has expanded every
/// node that it reached, each once.
pub proof fn lemma_search(whole: GraphView, paths: Seq<Seq<Seq<u8>>>)
    requires
        whole.wf(),
        bubble_known(whole, paths),
    ensures
        search(whole, paths).inv(whole),
        search(whole, paths).cursor == search(whole, paths).found.len(),
        search(whole, paths).found.len() <= whole.nodes.len(),
        forall|t: int, i: int|
            0 <= t < paths.len() && 0 <= i < paths[t].len() ==> search(whole, paths).has(
                whole.slot_of(#[trigger] paths[t][i]),
            ),
{
    assert forall|t: int, i: int| 0 <= t < paths.len() && 0 <= i < paths[t].len() implies whole.has_id(
        #[trigger] paths[t][i],
    ) by {
        assert(crate::search::all_known(whole, paths[t]));
    }
    lemma_seed_all(whole, paths);
    let seeded = seed_all(whole, paths);
    lemma_run(whole, bounds_of(whole, paths), seeded);
    let done = search(whole, paths);
    lemma_found_bounded(whole, done);
    assert forall|t: int, i: int| 0 <= t < paths.len() && 0 <= i < paths[t].len() implies done.has(
        whole.slot_of(#[trigger] paths[t][i]),
    ) by {
        lemma_extends_has(done, seeded, whole.slot_of(paths[t][i]));
    }
}

/// Every id of every traversal of a bubble names a node of
/// the subgraph that is extracted for it.
pub proof fn lemma_seeds_extracted(whole: GraphView, paths: Seq<Seq<Seq<u8>>>)
    requires
        whole.wf(),
        bubble_known(whole, paths),
    ensures
        forall|t: int, i: int|
            0 <= t < paths.len() && 0 <= i < paths[t].len() ==> extraction(whole, paths).has_id(
                #[trigger] paths[t][i],
            ),
{
    lemma_search(whole, paths);
    let done = search(whole, paths);
    assert forall|t: int, i: int| 0 <= t < paths.len() && 0 <= i < paths[t].len() implies extraction(
        whole,
        paths,
    ).has_id(#[trigger] paths[t][i]) by {
        assert(crate::search::all_known(whole, paths[t]));
        let id = paths[t][i];
        let slot = whole.slot_of(id);
        assert(whole.nodes[slot].id == id);
        lemma_subgraph_has(whole, done, slot);
    }
}

/// Whether every edge of `sub` joins two of its nodes whose ids name two
/// nodes that an edge of `whole` joins.
pub open spec fn edges_within(sub: GraphView, whole: GraphView) -> bool {
    forall|k: int|
        0 <= k < sub.edges.len() ==> {
            let e = #[trigger] sub.edges[k];
            &&& 0 <= e.0 < sub.nodes.len()
            &&& 0 <= e.1 < sub.nodes.len()
            &&& whole.has_id(sub.nodes[e.0].id)
            &&& whole.has_id(sub.nodes[e.1].id)
            &&& whole.has_edge(whole.slot_of(sub.nodes[e.0].id), whole.slot_of(sub.nodes[e.1].id))
        }
}

/// Every edge of the subgraph that is extracted for a
/// bubble joins two nodes of the subgraph, and the whole graph has an edge
/// between the nodes of the same ids.
pub proof fn lemma_no_phantom_edges(whole: GraphView, paths: Seq<Seq<Seq<u8>>>)
    requires
        whole.wf(),
        bubble_known(whole, paths),
    ensures
        extraction(whole, paths).wf(),
        edges_within(extraction(whole, paths), whole),
{
    lemma_search(whole, paths);
    let done = search(whole, paths);
    let sub = extraction(whole, paths);
    lemma_subgraph_wf(whole, done);
    assert forall|k: int| 0 <= k < sub.edges.len() implies {
        let e = #[trigger] sub.edges[k];
        &&& 0 <= e.0 < sub.nodes.len()
        &&& 0 <= e.1 < sub.nodes.len()
        &&& whole.has_id(sub.nodes[e.0].id)
        &&& whole.has_id(sub.nodes[e.1].id)
        &&& whole.has_edge(whole.slot_of(sub.nodes[e.0].id), whole.slot_of(sub.nodes[e.1].id))
    } by {
        let e = done.edges[k];
        lemma_slot_of(whole, done.found[e.0].slot);
        lemma_slot_of(whole, done.found[e.1].slot);
    }
}

/// The search for a bubble reaches each node of the whole graph
/// at most once and expands every node that it reached, so the subgraph has
/// no more nodes and no more edges than the whole graph.
pub proof fn lemma_each_node_once(whole: GraphView, paths: Seq<Seq<Seq<u8>>>)
    requires
        whole.wf(),
        bubble_known(whole, paths),
    ensures
        forall|i: int, j: int|
            0 <= i < j < search(whole, paths).found.len() ==> (#[trigger] search(whole, paths).found[i]).slot != (
            #[trigger] search(whole, paths).found[j]).slot,
        search(whole, paths).cursor == search(whole, paths).found.len(),
        extraction(whole, paths).nodes.len() == search(whole, paths).found.len(),
        extraction(whole, paths).nodes.len() <= whole.nodes.len(),
        extraction(whole, paths).edges.len() <= whole.edges.len(),
{
    lemma_search(whole, paths);
    lemma_edges_bounded(whole, search(whole, paths));
}

} // verus!
