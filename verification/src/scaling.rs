//! A bubble's neighbourhood follows the bubble's size.
//! Multiplying every node's length by the same factor multiplies the distance
//! bound by that factor and leaves the extracted neighbourhood as it was.

use crate::gfa::{GraphView, Provenance};
use crate::search::{
    all_known, bounds_of, bubble_known, consider, expand, extraction, max_distance, path_length, run, search,
    seed_all, seed_path, tag_of, visit, Bounds, Found, Search,
};
use crate::search_proofs::{
    all_joined, lemma_discover, lemma_expand, lemma_neighbors_joined, lemma_position_unique, lemma_search,
    lemma_seed_all, lemma_visit,
};
use crate::vcf::interior;
use vstd::prelude::*;

verus! {

/// Whether `scaled` is `g` with every node's length multiplied by `factor`:
/// the same ids in the same slots, joined by the same edges.
pub open spec fn scaled_by(g: GraphView, scaled: GraphView, factor: nat) -> bool {
    &&& scaled.nodes.len() == g.nodes.len()
    &&& scaled.edges == g.edges
    &&& forall|i: int|
        0 <= i < g.nodes.len() ==> (#[trigger] scaled.nodes[i]).id == g.nodes[i].id && scaled.nodes[i].len()
            == factor * g.nodes[i].len()
}

/// The bounds with the distance multiplied by `factor`.
pub open spec fn stretch_bounds(bounds: Bounds, factor: nat) -> Bounds {
    Bounds { distance: factor * bounds.distance, step: bounds.step }
}

/// The state with every distance multiplied by `factor`.
pub open spec fn stretch(st: Search, factor: nat) -> Search {
    Search {
        found: Seq::new(st.found.len(), |k: int| Found { dist: factor * st.found[k].dist, ..st.found[k] }),
        ..st
    }
}

/// A scaled graph knows the ids of the graph, in the same slots.
proof fn lemma_scaled_slot(g: GraphView, scaled: GraphView, factor: nat, id: Seq<u8>)
    requires
        g.wf(),
        scaled_by(g, scaled, factor),
        g.has_id(id),
    ensures
        scaled.has_id(id),
        scaled.slot_of(id) == g.slot_of(id),
{
    let a = g.slot_of(id);
    assert(scaled.nodes[a].id == id);
    let b = scaled.slot_of(id);
    assert(g.nodes[b].id == scaled.nodes[b].id);
    if a < b {
        assert(g.nodes[a].id != g.nodes[b].id);
    } else if b < a {
        assert(g.nodes[b].id != g.nodes[a].id);
    }
}

/// The summed length of a path scales with the nodes.
proof fn lemma_scaled_path_length(g: GraphView, scaled: GraphView, factor: nat, ids: Seq<Seq<u8>>)
    requires
        g.wf(),
        scaled_by(g, scaled, factor),
        all_known(g, ids),
    ensures
        path_length(scaled, ids) == factor * path_length(g, ids),
    decreases ids.len(),
{
    if ids.len() > 0 {
        let earlier = ids.drop_last();
        assert forall|i: int| 0 <= i < earlier.len() implies g.has_id(#[trigger] earlier[i]) by {
            assert(earlier[i] == ids[i]);
        }
        lemma_scaled_path_length(g, scaled, factor, earlier);
        assert(g.has_id(ids[ids.len() - 1]));
        lemma_scaled_slot(g, scaled, factor, ids.last());
        let slot = g.slot_of(ids.last());
        let a = path_length(g, earlier);
        let b = g.nodes[slot].len();
        assert(factor * (a + b) == factor * a + factor * b) by (nonlinear_arith);
    } else {
        assert(factor * 0 == 0);
    }
}

/// The distance bound of a bubble scales with the nodes.
proof fn lemma_scaled_max_distance(g: GraphView, scaled: GraphView, factor: nat, paths: Seq<Seq<Seq<u8>>>)
    requires
        g.wf(),
        scaled_by(g, scaled, factor),
        bubble_known(g, paths),
    ensures
        max_distance(scaled, paths) == factor * max_distance(g, paths),
    decreases paths.len(),
{
    if paths.len() > 0 {
        let earlier = paths.drop_last();
        assert forall|t: int| 0 <= t < earlier.len() implies all_known(g, #[trigger] earlier[t]) by {
            assert(earlier[t] == paths[t]);
        }
        lemma_scaled_max_distance(g, scaled, factor, earlier);
        let last = paths.last();
        assert(all_known(g, paths[paths.len() - 1]));
        let inner = interior(last);
        assert forall|i: int| 0 <= i < inner.len() implies g.has_id(#[trigger] inner[i]) by {
            assert(inner[i] == last[i + 1]);
        }
        lemma_scaled_path_length(g, scaled, factor, inner);
        let a = max_distance(g, earlier);
        let b = path_length(g, inner);
        assert(a >= b ==> factor * a >= factor * b) by (nonlinear_arith);
        assert(a < b ==> factor * a <= factor * b) by (nonlinear_arith);
    } else {
        assert(factor * 0 == 0);
    }
}

/// Reaching a node commutes with stretching.
proof fn lemma_stretch_discover(st: Search, factor: nat, slot: int, dist: nat, step: nat, tag: Provenance)
    ensures
        stretch(st, factor).has(slot) == st.has(slot),
        stretch(st, factor).discover(slot, factor * dist, step, tag) == stretch(
            st.discover(slot, dist, step, tag),
            factor,
        ),
{
    let wide = stretch(st, factor);
    if st.has(slot) {
        let i = st.position(slot);
        assert(wide.found[i].slot == slot);
    }
    if wide.has(slot) {
        let i = wide.position(slot);
        assert(st.found[i].slot == slot);
    }
    assert(wide.discover(slot, factor * dist, step, tag).found =~= stretch(
        st.discover(slot, dist, step, tag),
        factor,
    ).found);
}

/// Seeding commutes with stretching and with scaling the graph.
proof fn lemma_scaled_seed_path(
    g: GraphView,
    scaled: GraphView,
    factor: nat,
    st: Search,
    ids: Seq<Seq<u8>>,
    tag: Provenance,
)
    requires
        g.wf(),
        scaled_by(g, scaled, factor),
        all_known(g, ids),
    ensures
        seed_path(scaled, stretch(st, factor), ids, tag) == stretch(seed_path(g, st, ids, tag), factor),
    decreases ids.len(),
{
    if ids.len() > 0 {
        let earlier = ids.drop_last();
        assert forall|i: int| 0 <= i < earlier.len() implies g.has_id(#[trigger] earlier[i]) by {
            assert(earlier[i] == ids[i]);
        }
        lemma_scaled_seed_path(g, scaled, factor, st, earlier, tag);
        assert(g.has_id(ids[ids.len() - 1]));
        lemma_scaled_slot(g, scaled, factor, ids.last());
        assert(factor * 0 == 0);
        lemma_stretch_discover(seed_path(g, st, earlier, tag), factor, g.slot_of(ids.last()), 0, 0, tag);
    }
}

/// Seeding a bubble commutes with scaling the graph.
proof fn lemma_scaled_seed_all(g: GraphView, scaled: GraphView, factor: nat, paths: Seq<Seq<Seq<u8>>>)
    requires
        g.wf(),
        scaled_by(g, scaled, factor),
        bubble_known(g, paths),
    ensures
        seed_all(scaled, paths) == stretch(seed_all(g, paths), factor),
    decreases paths.len(),
{
    if paths.len() > 0 {
        let earlier = paths.drop_last();
        assert forall|t: int| 0 <= t < earlier.len() implies all_known(g, #[trigger] earlier[t]) by {
            assert(earlier[t] == paths[t]);
        }
        lemma_scaled_seed_all(g, scaled, factor, earlier);
        assert(all_known(g, paths[paths.len() - 1]));
        lemma_scaled_seed_path(g, scaled, factor, seed_all(g, earlier), paths.last(), tag_of(paths.len() - 1));
    } else {
        assert(stretch(Search::start(), factor).found =~= Search::start().found);
    }
}

/// Stretching keeps the position of every slot.
proof fn lemma_same_position(g: GraphView, st: Search, factor: nat, slot: int)
    requires
        st.inv(g),
        st.has(slot),
    ensures
        stretch(st, factor).has(slot),
        stretch(st, factor).position(slot) == st.position(slot),
{
    let wide = stretch(st, factor);
    let p = st.position(slot);
    assert(wide.found[p].slot == slot);
    let q = wide.position(slot);
    assert(st.found[q].slot == slot);
    lemma_position_unique(st, g, p, q);
}

/// Looking at a neighbour commutes with stretching and scaling.
proof fn lemma_scaled_consider(
    g: GraphView,
    scaled: GraphView,
    factor: nat,
    bounds: Bounds,
    st: Search,
    at: int,
    neighbor: int,
)
    requires
        factor >= 1,
        scaled_by(g, scaled, factor),
        st.inv(g),
        0 <= at < st.found.len(),
        0 <= neighbor < g.nodes.len(),
    ensures
        consider(scaled, stretch_bounds(bounds, factor), stretch(st, factor), at, neighbor) == stretch(
            consider(g, bounds, st, at, neighbor),
            factor,
        ),
{
    let from = st.found[at];
    let dist = from.dist + g.nodes[from.slot].len();
    let step = from.step + 1;
    let wide = stretch(st, factor);
    assert(wide.found[at].dist + scaled.nodes[from.slot].len() == factor * dist) by {
        assert(factor * (from.dist + g.nodes[from.slot].len()) == factor * from.dist + factor
            * g.nodes[from.slot].len()) by (nonlinear_arith);
    }
    assert((factor * dist <= factor * bounds.distance) == (dist <= bounds.distance)) by (nonlinear_arith)
        requires
            factor >= 1,
    ;
    if dist <= bounds.distance || step <= bounds.step {
        lemma_stretch_discover(st, factor, neighbor, dist, step, Provenance::Reference);
        lemma_discover(g, st, neighbor, dist, step, Provenance::Reference);
        let reached = st.discover(neighbor, dist, step, Provenance::Reference);
        lemma_same_position(g, reached, factor, neighbor);
        let p = reached.position(neighbor);
        assert(stretch(reached, factor).link(at, p).found =~= stretch(reached.link(at, p), factor).found);
    }
}

/// Expanding a node commutes with stretching and scaling.
proof fn lemma_scaled_expand(
    g: GraphView,
    scaled: GraphView,
    factor: nat,
    bounds: Bounds,
    st: Search,
    at: int,
    neighbors: Seq<int>,
)
    requires
        factor >= 1,
        scaled_by(g, scaled, factor),
        st.inv(g),
        0 <= at < st.found.len(),
        all_joined(g, st.found[at].slot, neighbors),
    ensures
        expand(scaled, stretch_bounds(bounds, factor), stretch(st, factor), at, neighbors) == stretch(
            expand(g, bounds, st, at, neighbors),
            factor,
        ),
    decreases neighbors.len(),
{
    if neighbors.len() > 0 {
        let earlier = neighbors.drop_last();
        assert forall|i: int| 0 <= i < earlier.len() implies 0 <= #[trigger] earlier[i] < g.nodes.len()
            && g.has_edge(st.found[at].slot, earlier[i]) by {
            assert(earlier[i] == neighbors[i]);
        }
        lemma_scaled_expand(g, scaled, factor, bounds, st, at, earlier);
        lemma_expand(g, bounds, st, at, earlier);
        let mid = expand(g, bounds, st, at, earlier);
        assert(neighbors.last() == neighbors[neighbors.len() - 1]);
        lemma_scaled_consider(g, scaled, factor, bounds, mid, at, neighbors.last());
    }
}

/// Running a search to its end commutes with stretching and scaling.
proof fn lemma_scaled_run(g: GraphView, scaled: GraphView, factor: nat, bounds: Bounds, st: Search)
    requires
        factor >= 1,
        g.wf(),
        scaled_by(g, scaled, factor),
        st.inv(g),
    ensures
        run(scaled, stretch_bounds(bounds, factor), stretch(st, factor)) == stretch(run(g, bounds, st), factor),
    decreases g.nodes.len() - st.cursor,
{
    if st.cursor < st.found.len() && st.cursor < g.nodes.len() {
        let at = st.cursor as int;
        let slot = st.found[at].slot;
        lemma_neighbors_joined(g, slot);
        assert(scaled.neighbors(slot) == g.neighbors(slot));
        lemma_scaled_expand(g, scaled, factor, bounds, st, at, g.neighbors(slot));
        lemma_visit(g, bounds, st);
        let next = visit(g, bounds, st);
        assert(visit(scaled, stretch_bounds(bounds, factor), stretch(st, factor)) == stretch(next, factor)) by {
            let grown = expand(g, bounds, st, at, g.neighbors(slot));
            assert(stretch(Search { cursor: st.cursor + 1, ..grown }, factor).found =~= stretch(grown, factor).found);
        }
        lemma_scaled_run(g, scaled, factor, bounds, next);
    }
}

/// Where every node's length is multiplied by the same
/// positive factor, the distance bound of a bubble is multiplied by it (the
/// step bound does not look at the graph), and the search reaches the same
/// nodes in the same order and inserts the same edges: the subgraph keeps its
/// node count, so the neighbourhood does not shrink.
pub proof fn lemma_budget_scales(g: GraphView, scaled: GraphView, factor: nat, paths: Seq<Seq<Seq<u8>>>)
    requires
        factor >= 1,
        g.wf(),
        scaled_by(g, scaled, factor),
        bubble_known(g, paths),
    ensures
        max_distance(scaled, paths) == factor * max_distance(g, paths),
        search(scaled, paths) == stretch(search(g, paths), factor),
        extraction(scaled, paths).nodes.len() == extraction(g, paths).nodes.len(),
        extraction(scaled, paths).edges == extraction(g, paths).edges,
        forall|k: int|
            0 <= k < extraction(g, paths).nodes.len() ==> (#[trigger] extraction(scaled, paths).nodes[k]).id
                == extraction(g, paths).nodes[k].id && extraction(scaled, paths).nodes[k].status == extraction(
                g,
                paths,
            ).nodes[k].status,
{
    lemma_scaled_max_distance(g, scaled, factor, paths);
    lemma_scaled_seed_all(g, scaled, factor, paths);
    assert forall|t: int, i: int| 0 <= t < paths.len() && 0 <= i < paths[t].len() implies g.has_id(
        #[trigger] paths[t][i],
    ) by {
        assert(all_known(g, paths[t]));
    }
    lemma_seed_all(g, paths);
    lemma_scaled_run(g, scaled, factor, bounds_of(g, paths), seed_all(g, paths));
    assert(bounds_of(scaled, paths) == stretch_bounds(bounds_of(g, paths), factor));
    lemma_search(g, paths);
    let done = search(g, paths);
    assert forall|k: int| 0 <= k < extraction(g, paths).nodes.len() implies (#[trigger] extraction(
        scaled,
        paths,
    ).nodes[k]).id == extraction(g, paths).nodes[k].id && extraction(scaled, paths).nodes[k].status
        == extraction(g, paths).nodes[k].status by {
        assert(0 <= done.found[k].slot < g.nodes.len());
    }
}

} // verus!
