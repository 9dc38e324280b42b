//! The bounded extraction engine: for one bubble, the breadth-first search
//! that picks the surrounding subgraph out of the whole graph.

use crate::gfa::{GFAGraph, GraphError, GraphView, Provenance};
use crate::search::{
    all_known, bounds_of, bubble_known, consider, expand, extraction, max_distance, max_step, path_length, run,
    search, seed_all, seed_path, visit, Search,
};
use crate::search_proofs::{
    all_joined, edges_within, lemma_consider, lemma_discover, lemma_each_node_once, lemma_edges_bounded,
    lemma_found_bounded, lemma_link, lemma_neighbors_joined, lemma_no_phantom_edges, lemma_position,
    lemma_seed_all, lemma_seeds_extracted, lemma_subgraph_has, lemma_subgraph_slot, lemma_visit,
};
use crate::vcf::{ids_of, interior, BubbleVariant};
use std::collections::{HashSet, VecDeque};
use vstd::prelude::*;
use vstd::slice::slice_to_vec;

verus! {

broadcast use vstd::std_specs::hash::group_hash_axioms;

/// The summed length of the nodes that the ids name.
pub fn query_at_len(at: &Vec<Vec<u8>>, g: &GFAGraph) -> (total: Result<u128, GraphError>)
    requires
        g.wf(),
    ensures
        match total {
            Ok(len) => all_known(g@, ids_of(at@)) && len == path_length(g@, ids_of(at@)),
            Err(e) => e == GraphError::NodeNotFound && !all_known(g@, ids_of(at@)),
        },
{
    let ghost ids = ids_of(at@);
    let mut total: u128 = 0;
    let mut i: usize = 0;
    while i < at.len()
        invariant
            g.wf(),
            ids == ids_of(at@),
            i <= at.len(),
            all_known(g@, ids.subrange(0, i as int)),
            total == path_length(g@, ids.subrange(0, i as int)),
            total <= i * usize::MAX,
        decreases at.len() - i,
    {
        assert(ids[i as int] == at@[i as int]@);
        match g.get_seq_len_by_id(at[i].as_slice()) {
            Some(len) => {
                assert((i + 1) * usize::MAX <= u128::MAX) by (nonlinear_arith)
                    requires
                        i + 1 <= usize::MAX,
                        usize::MAX <= 0xffff_ffff_ffff_ffff,
                        u128::MAX == 0xffff_ffff_ffff_ffff_ffff_ffff_ffff_ffff,
                ;
                assert(i * usize::MAX + usize::MAX == (i + 1) * usize::MAX) by (nonlinear_arith);
                total = total + len as u128;
            },
            None => {
                return Err(GraphError::NodeNotFound);
            },
        }
        proof {
            let next = ids.subrange(0, i + 1);
            assert(next.drop_last() == ids.subrange(0, i as int));
            assert(next.last() == ids[i as int]);
            assert forall|j: int| 0 <= j < next.len() implies g@.has_id(#[trigger] next[j]) by {
                if j < i {
                    assert(ids.subrange(0, i as int)[j] == next[j]);
                }
            }
        }
        i += 1;
    }
    assert(ids.subrange(0, at.len() as int) == ids);
    Ok(total)
}

/// The two bounds of a bubble: the greatest summed length and the greatest
/// number of interior ids over its traversals. A traversal without interior
/// counts as zero for both. A bubble without traversals is malformed; one
/// that names an interior id which the graph lacks fails with
/// `NodeNotFound`.
pub fn query_dis_step(bubble: &BubbleVariant, g: &GFAGraph) -> (bounds: Result<(u128, usize), GraphError>)
    requires
        g.wf(),
    ensures
        match bounds {
            Ok(b) => {
                &&& bubble@.traversals.len() > 0
                &&& forall|t: int|
                    0 <= t < bubble@.traversals.len() ==> all_known(g@, interior(#[trigger] bubble@.traversals[t]))
                &&& b.0 == max_distance(g@, bubble@.traversals)
                &&& b.1 == max_step(bubble@.traversals)
            },
            Err(e) => if bubble@.traversals.len() == 0 {
                e == GraphError::MalformedBubble
            } else {
                e == GraphError::NodeNotFound && exists|t: int|
                    0 <= t < bubble@.traversals.len() && !all_known(g@, interior(#[trigger] bubble@.traversals[t]))
            },
        },
{
    let ghost paths = bubble@.traversals;
    if bubble.allele_traversal.len() == 0 {
        return Err(GraphError::MalformedBubble);
    }
    let mut distance: u128 = 0;
    let mut step: usize = 0;
    let mut t: usize = 0;
    while t < bubble.allele_traversal.len()
        invariant
            g.wf(),
            paths == bubble@.traversals,
            paths.len() == bubble.allele_traversal.len(),
            t <= bubble.allele_traversal.len(),
            forall|u: int| 0 <= u < t ==> all_known(g@, interior(#[trigger] paths[u])),
            distance == max_distance(g@, paths.subrange(0, t as int)),
            step == max_step(paths.subrange(0, t as int)),
        decreases bubble.allele_traversal.len() - t,
    {
        let inner = bubble.allele_traversal[t].interior_nodes();
        assert(paths[t as int] == bubble.allele_traversal@[t as int]@);
        let len = match query_at_len(&inner, g) {
            Ok(len) => len,
            Err(e) => {
                return Err(e);
            },
        };
        if len > distance {
            distance = len;
        }
        if inner.len() > step {
            step = inner.len();
        }
        proof {
            let next = paths.subrange(0, t + 1);
            assert(next.drop_last() == paths.subrange(0, t as int));
            assert(next.last() == paths[t as int]);
            assert(ids_of(inner@).len() == inner.len());
        }
        t += 1;
    }
    assert(paths.subrange(0, paths.len() as int) == paths);
    Ok((distance, step))
}

/// How the engine's data stands for a state of the search: the subgraph under
/// construction is the state's subgraph, the visited set holds the slots that
/// were reached, and the queue holds the entries from `head` on. Distances
/// stay within what the step count allows, so that they fit their type.
spec fn tracks(
    st: Search,
    whole: GraphView,
    sub: GFAGraph,
    visited: Set<usize>,
    queue: Seq<(usize, u128, usize)>,
    head: nat,
) -> bool {
    &&& st.inv(whole)
    &&& sub.wf()
    &&& sub@ == st.subgraph(whole)
    &&& forall|s: usize| visited.contains(s) <==> st.has(s as int)
    &&& head <= st.found.len()
    &&& queue.len() == st.found.len() - head
    &&& forall|i: int|
        0 <= i < queue.len() ==> {
            let q = #[trigger] queue[i];
            let f = st.found[head + i];
            q.0 == f.slot && q.1 == f.dist && q.2 == f.step
        }
    &&& forall|k: int|
        0 <= k < st.found.len() ==> (#[trigger] st.found[k]).dist <= st.found[k].step * usize::MAX
}

/// Reaches a node: unless it was visited, marks it, queues it and inserts it
/// into the subgraph with the given tag.
fn reach(
    g: &GFAGraph,
    sub: &mut GFAGraph,
    visited: &mut HashSet<usize>,
    queue: &mut VecDeque<(usize, u128, usize)>,
    idx: usize,
    dist: u128,
    step: usize,
    tag: Provenance,
    Ghost(st): Ghost<Search>,
    Ghost(head): Ghost<nat>,
)
    requires
        g.wf(),
        tracks(st, g@, *old(sub), old(visited)@, old(queue)@, head),
        idx < g@.nodes.len(),
        step <= st.found.len(),
        dist <= step * usize::MAX,
    ensures
        tracks(
            st.discover(idx as int, dist as nat, step as nat, tag),
            g@,
            *final(sub),
            final(visited)@,
            final(queue)@,
            head,
        ),
{
    let ghost next = st.discover(idx as int, dist as nat, step as nat, tag);
    proof {
        lemma_discover(g@, st, idx as int, dist as nat, step as nat, tag);
        lemma_subgraph_has(g@, st, idx as int);
    }
    if !visited.contains(&idx) {
        match g.get_node_data(idx) {
            Some(data) => {
                proof {
                    lemma_found_bounded(g@, next);
                }
                let ghost seen = visited@;
                let ghost waiting = queue@;
                visited.insert(idx);
                queue.push_back((idx, dist, step));
                sub.add_node(slice_to_vec(data.id.as_slice()), data.sequence.clone(), tag);
                proof {
                    assert(sub@.nodes =~= next.subgraph(g@).nodes);
                    assert forall|s: usize| visited@.contains(s) <==> next.has(s as int) by {
                        if seen.contains(s) {
                            assert(st.has(s as int));
                        }
                        if next.has(s as int) && s != idx {
                            let i = next.position(s as int);
                            assert(next.found[i] == st.found[i]);
                        }
                    }
                    assert forall|i: int| 0 <= i < queue@.len() implies {
                        let q = #[trigger] queue@[i];
                        let f = next.found[head + i];
                        q.0 == f.slot && q.1 == f.dist && q.2 == f.step
                    } by {
                        if i < waiting.len() {
                            assert(queue@[i] == waiting[i]);
                            assert(next.found[head + i] == st.found[head + i]);
                        }
                    }
                    assert forall|k: int| 0 <= k < next.found.len() implies (#[trigger] next.found[k]).dist
                        <= next.found[k].step * usize::MAX by {
                        if k < st.found.len() {
                            assert(next.found[k] == st.found[k]);
                        }
                    }
                }
            },
            None => {},
        }
    }
}

/// Inserts into the subgraph the edge between two nodes that were reached.
fn join(
    g: &GFAGraph,
    sub: &mut GFAGraph,
    a: usize,
    b: usize,
    Ghost(st): Ghost<Search>,
    Ghost(visited): Ghost<Set<usize>>,
    Ghost(queue): Ghost<Seq<(usize, u128, usize)>>,
    Ghost(head): Ghost<nat>,
) -> (done: Result<(), GraphError>)
    requires
        g.wf(),
        tracks(st, g@, *old(sub), visited, queue, head),
        a < g@.nodes.len(),
        b < g@.nodes.len(),
        st.has(a as int),
        st.has(b as int),
        g@.has_edge(a as int, b as int),
    ensures
        done is Ok,
        tracks(st.link(st.position(a as int), st.position(b as int)), g@, *final(sub), visited, queue, head),
{
    let ghost pa = st.position(a as int);
    let ghost pb = st.position(b as int);
    let ghost next = st.link(pa, pb);
    proof {
        lemma_link(g@, st, pa, pb);
        lemma_edges_bounded(g@, next);
        lemma_subgraph_slot(g@, st, pa);
        lemma_subgraph_slot(g@, st, pb);
    }
    match (g.get_node_data(a), g.get_node_data(b)) {
        (Some(from), Some(to)) => {
            let done = sub.add_edge(from.id.as_slice(), to.id.as_slice());
            done
        },
        _ => Ok(()),
    }
}

/// Extracts the neighbourhood of a bubble from the whole graph.
///
/// Every id of every traversal is a seed, tagged `Reference` where the first
/// traversal brings it first and `Alternate` otherwise. From the seeds the
/// search goes breadth first; a neighbour is taken while the distance or the
/// step count from the seed stays within the bubble's bound, and comes tagged
/// `Reference`. The result is the subgraph of the finished search.
///
/// A bubble without traversals is malformed; a bubble that names an id which
/// the whole graph lacks fails with `NodeNotFound`.
pub fn extract_subgraph_by_bfs(bubble: &BubbleVariant, g: &GFAGraph) -> (out: Result<GFAGraph, GraphError>)
    requires
        g.wf(),
    ensures
        match out {
            Ok(sub) => {
                &&& bubble@.traversals.len() > 0
                &&& bubble_known(g@, bubble@.traversals)
                &&& sub.wf()
                &&& sub@ == extraction(g@, bubble@.traversals)
                &&& forall|t: int, i: int|
                    0 <= t < bubble@.traversals.len() && 0 <= i < bubble@.traversals[t].len() ==> sub@.has_id(
                        #[trigger] bubble@.traversals[t][i],
                    )
                &&& edges_within(sub@, g@)
                &&& sub@.nodes.len() <= g@.nodes.len()
                &&& sub@.edges.len() <= g@.edges.len()
            },
            Err(e) => if bubble@.traversals.len() == 0 {
                e == GraphError::MalformedBubble
            } else {
                e == GraphError::NodeNotFound && !bubble_known(g@, bubble@.traversals)
            },
        },
{
    let ghost paths = bubble@.traversals;
    let (max_distance, max_step) = match query_dis_step(bubble, g) {
        Ok(b) => b,
        Err(e) => {
            proof {
                if paths.len() > 0 {
                    let t = choose|t: int| 0 <= t < paths.len() && !all_known(g@, interior(#[trigger] paths[t]));
                    let inner = interior(paths[t]);
                    let j = choose|j: int| 0 <= j < inner.len() && !g@.has_id(#[trigger] inner[j]);
                    assert(inner[j] == paths[t][j + 1]);
                    assert(!all_known(g@, paths[t]));
                }
            }
            return Err(e);
        },
    };
    let ghost bounds = bounds_of(g@, paths);
    let mut subgraph = GFAGraph::new();
    let mut visited: HashSet<usize> = HashSet::new();
    let mut queue: VecDeque<(usize, u128, usize)> = VecDeque::new();
    let ghost mut st = Search::start();
    proof {
        assert(subgraph@.nodes =~= st.subgraph(g@).nodes);
        assert(paths.subrange(0, 0) =~= Seq::empty());
    }
    let mut t: usize = 0;
    while t < bubble.allele_traversal.len()
        invariant
            g.wf(),
            paths == bubble@.traversals,
            paths.len() == bubble.allele_traversal.len(),
            t <= bubble.allele_traversal.len(),
            forall|u: int| 0 <= u < t ==> all_known(g@, #[trigger] paths[u]),
            st == seed_all(g@, paths.subrange(0, t as int)),
            tracks(st, g@, subgraph, visited@, queue@, 0),
        decreases bubble.allele_traversal.len() - t,
    {
        let trav = &bubble.allele_traversal[t];
        let tag = if t == 0 {
            Provenance::Reference
        } else {
            Provenance::Alternate
        };
        let ghost base = st;
        let ghost ids = paths[t as int];
        assert(ids == trav@);
        assert(ids.subrange(0, 0) =~= Seq::empty());
        let mut i: usize = 0;
        while i < trav.nodes.len()
            invariant
                g.wf(),
                paths == bubble@.traversals,
                0 <= t < paths.len(),
                ids == paths[t as int],
                ids == trav@,
                ids.len() == trav.nodes.len(),
                i <= trav.nodes.len(),
                all_known(g@, ids.subrange(0, i as int)),
                st == seed_path(g@, base, ids.subrange(0, i as int), tag),
                tracks(st, g@, subgraph, visited@, queue@, 0),
            decreases trav.nodes.len() - i,
        {
            assert(ids[i as int] == trav.nodes@[i as int]@);
            let idx = match g.get_node_idx(trav.nodes[i].as_slice()) {
                Some(idx) => idx,
                None => {
                    assert(!all_known(g@, paths[t as int]));
                    return Err(GraphError::NodeNotFound);
                },
            };
            assert(0 * usize::MAX == 0);
            reach(g, &mut subgraph, &mut visited, &mut queue, idx, 0, 0, tag, Ghost(st), Ghost(0));
            proof {
                st = st.discover(idx as int, 0, 0, tag);
                let next = ids.subrange(0, i + 1);
                assert(next.drop_last() == ids.subrange(0, i as int));
                assert(next.last() == ids[i as int]);
                assert forall|j: int| 0 <= j < next.len() implies g@.has_id(#[trigger] next[j]) by {
                    if j < i {
                        assert(ids.subrange(0, i as int)[j] == next[j]);
                    }
                }
            }
            i += 1;
        }
        proof {
            assert(ids.subrange(0, ids.len() as int) == ids);
            let next = paths.subrange(0, t + 1);
            assert(next.drop_last() == paths.subrange(0, t as int));
            assert(next.last() == ids);
        }
        t += 1;
    }
    proof {
        assert(paths.subrange(0, paths.len() as int) == paths);
    }
    let ghost seeded = st;
    assert(seeded.cursor == 0) by {
        assert forall|t: int, i: int| 0 <= t < paths.len() && 0 <= i < paths[t].len() implies g@.has_id(
            #[trigger] paths[t][i],
        ) by {
            assert(all_known(g@, paths[t]));
        }
        lemma_seed_all(g@, paths);
    }
    while queue.len() > 0
        invariant
            g.wf(),
            bounds == bounds_of(g@, paths),
            bounds.distance == max_distance,
            bounds.step == max_step,
            tracks(st, g@, subgraph, visited@, queue@, st.cursor),
            run(g@, bounds, st) == run(g@, bounds, seeded),
        decreases g@.nodes.len() - st.cursor,
    {
        proof {
            lemma_found_bounded(g@, st);
        }
        match queue.pop_front() {
            Some((current_idx, dist_so_far, step_so_far)) => {
                let ghost at = st.cursor as int;
                let ghost base = st;
                assert(base.found[at].slot == current_idx);
                match g.get_node_data(current_idx) {
                    Some(current) => {
                        let cost: usize = current.sequence.as_str().as_bytes().len();
                        let nbrs = g.neighbors(current_idx);
                        let ghost around = g@.neighbors(current_idx as int);
                        proof {
                            lemma_neighbors_joined(g@, current_idx as int);
                            assert(around.subrange(0, 0) =~= Seq::empty());
                            assert forall|k: int| 0 <= k < queue@.len() implies {
                                let q = #[trigger] queue@[k];
                                let f = st.found[at + 1 + k];
                                q.0 == f.slot && q.1 == f.dist && q.2 == f.step
                            } by {}
                        }
                        let mut i: usize = 0;
                        while i < nbrs.len()
                            invariant
                                g.wf(),
                                nbrs@.map_values(|s: usize| s as int) == around,
                                all_joined(g@, current_idx as int, around),
                                i <= nbrs.len(),
                                nbrs.len() == around.len(),
                                bounds.distance == max_distance,
                                bounds.step == max_step,
                                0 <= at < base.found.len(),
                                base.inv(g@),
                                base.found[at].slot == current_idx,
                                base.found[at].dist == dist_so_far,
                                base.found[at].step == step_so_far,
                                dist_so_far <= step_so_far * usize::MAX,
                                cost == g@.nodes[current_idx as int].len(),
                                g@.nodes.len() <= u32::MAX,
                                st == expand(g@, bounds, base, at, around.subrange(0, i as int)),
                                st.extends(base),
                                st.cursor == at,
                                tracks(st, g@, subgraph, visited@, queue@, (at + 1) as nat),
                            decreases nbrs.len() - i,
                        {
                            let nb = nbrs[i];
                            proof {
                                assert(around[i as int] == nbrs@[i as int] as int);
                                assert(st.found[at] == base.found[at]);
                                lemma_found_bounded(g@, st);
                                assert((step_so_far + 1) * usize::MAX <= u128::MAX) by (nonlinear_arith)
                                    requires
                                        step_so_far + 1 <= u32::MAX,
                                        usize::MAX <= 0xffff_ffff_ffff_ffff,
                                        u32::MAX == 0xffff_ffff,
                                        u128::MAX == 0xffff_ffff_ffff_ffff_ffff_ffff_ffff_ffff,
                                ;
                                assert(step_so_far * usize::MAX + usize::MAX == (step_so_far + 1) * usize::MAX)
                                    by (nonlinear_arith);
                            }
                            let new_distance: u128 = dist_so_far + cost as u128;
                            let new_step: usize = step_so_far + 1;
                            if new_distance <= max_distance || new_step <= max_step {
                                reach(
                                    g,
                                    &mut subgraph,
                                    &mut visited,
                                    &mut queue,
                                    nb,
                                    new_distance,
                                    new_step,
                                    Provenance::Reference,
                                    Ghost(st),
                                    Ghost((at + 1) as nat),
                                );
                                let ghost reached = st.discover(
                                    nb as int,
                                    new_distance as nat,
                                    new_step as nat,
                                    Provenance::Reference,
                                );
                                proof {
                                    lemma_discover(
                                        g@,
                                        st,
                                        nb as int,
                                        new_distance as nat,
                                        new_step as nat,
                                        Provenance::Reference,
                                    );
                                    assert(reached.found[at] == st.found[at]);
                                    lemma_position(reached, g@, at);
                                }
                                match join(
                                    g,
                                    &mut subgraph,
                                    current_idx,
                                    nb,
                                    Ghost(reached),
                                    Ghost(visited@),
                                    Ghost(queue@),
                                    Ghost((at + 1) as nat),
                                ) {
                                    Ok(_) => {},
                                    Err(e) => {
                                        return Err(e);
                                    },
                                }
                            }
                            proof {
                                lemma_consider(g@, bounds, st, at, nb as int);
                                st = consider(g@, bounds, st, at, nb as int);
                                let next = around.subrange(0, i + 1);
                                assert(next.drop_last() == around.subrange(0, i as int));
                                assert(next.last() == around[i as int]);
                            }
                            i += 1;
                        }
                        proof {
                            assert(around.subrange(0, around.len() as int) == around);
                            st = Search { cursor: st.cursor + 1, ..st };
                            assert(st == visit(g@, bounds, base));
                            lemma_visit(g@, bounds, base);
                        }
                    },
                    None => {},
                }
            },
            None => {},
        }
    }
    proof {
        lemma_found_bounded(g@, st);
        assert(st == run(g@, bounds, st));
        lemma_seeds_extracted(g@, paths);
        lemma_no_phantom_edges(g@, paths);
        lemma_each_node_once(g@, paths);
    }
    Ok(subgraph)
}

} // verus!
