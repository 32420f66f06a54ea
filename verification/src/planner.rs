//! The coverage planner: rounds from an anchor until the graph around it is
//! used up, then detours from every system met on the way.

use vstd::prelude::*;
use std::collections::HashSet;
use petgraph::algo::astar;
use petgraph::graph::Graph;
use petgraph::graph::NodeIndex;
use petgraph::Undirected;
use crate::guarantees::lemma_plan_is_tour;
use crate::journey::{
    lemma_contains_push, lemma_reverse_walk, lemma_route_has_ids, lemma_tour_covers,
};
use crate::restriction::{
    lemma_induced_at, lemma_induced_restricts, lemma_induced_well_formed, marks, restricts,
};
use crate::rounds::{
    lemma_round, lemma_round_taken, lemma_trunk_exhausted, lemma_trunk_extends,
    lemma_trunk_is_journey, unspent,
};
use crate::plan::{
    lemma_splice_detours, lemma_splice_passes, marks_of, unconsumed, unexplored,
};
use crate::search::longest_simple_path;
use crate::store::{
    answers, copy_graph, filter_nodes, find_system, graph_nodes, is_proper, node_count,
    system_at, topology,
};
use crate::system::System;
use crate::topology::{lemma_rank_drop, lemma_rank_step, lemma_select_len, rank};

verus! {

/// Whether two positions are one.
fn same_position(a: usize, b: usize) -> (same: bool)
    ensures
        same == (a == b),
{
    a == b
}

/// The cost of one jump: every jump costs the same.
fn jump_cost() -> (cost: usize)
    ensures
        cost == 1,
{
    1
}

/// The estimate of the cost that is left: none is made.
fn no_estimate() -> (cost: usize)
    ensures
        cost == 0,
{
    0
}

/// `petgraph::algo::astar` with the cost of `jump_cost` on every edge and
/// the estimate of `no_estimate`, its cost dropped: a walk from `from` to
/// `to` with the fewest jumps, or nothing where no walk joins them. Which
/// of several shortest walks comes back is left open.
#[verifier::external_body]
fn shortest_path(graph: &Graph<System, (), Undirected>, from: usize, to: usize) -> (path: Option<
    Vec<usize>,
>)
    requires
        from < graph_nodes(*graph).len(),
        to < graph_nodes(*graph).len(),
    ensures
        match path {
            Some(w) => topology(graph).is_shortest(from as int, to as int, w@),
            None => !topology(graph).reachable(from as int, to as int),
        },
{
    astar(
        graph,
        NodeIndex::new(from),
        |n| same_position(n.index(), to),
        |_| jump_cost(),
        |_| no_estimate(),
    ).map(|(_, w)| w.into_iter().map(|n| n.index()).collect())
}

/// Whether `x` occurs in `v`.
fn contains_position(v: &Vec<usize>, x: usize) -> (found: bool)
    ensures
        found == v@.contains(x),
{
    let mut i: usize = 0;
    while i < v.len()
        invariant
            i <= v.len(),
            forall|k: int| 0 <= k < i ==> v[k] != x,
        decreases v.len() - i,
    {
        if v[i] == x {
            return true;
        }
        i += 1;
    }
    false
}

/// Whether the identifier `x` occurs in `v`.
fn contains_id(v: &Vec<u32>, x: u32) -> (found: bool)
    ensures
        found == v@.contains(x),
{
    let mut i: usize = 0;
    while i < v.len()
        invariant
            i <= v.len(),
            forall|k: int| 0 <= k < i ==> v[k] != x,
        decreases v.len() - i,
    {
        if v[i] == x {
            return true;
        }
        i += 1;
    }
    false
}

/// Appends to `dst` all of `src` but its first element.
fn append_tail(dst: &mut Vec<usize>, src: &Vec<usize>)
    requires
        src.len() >= 1,
    ensures
        final(dst)@ == old(dst)@ + src@.skip(1),
{
    let mut i: usize = 1;
    while i < src.len()
        invariant
            1 <= i <= src.len(),
            dst@ == old(dst)@ + src@.subrange(1, i as int),
        decreases src.len() - i,
    {
        dst.push(src[i]);
        assert(src@.subrange(1, i as int).push(src@[i as int]) =~= src@.subrange(1, i + 1));
        i += 1;
    }
    assert(src@.subrange(1, src.len() as int) =~= src@.skip(1));
}

/// The identifiers of the systems at the positions `w`, in order.
fn ids_along(graph: &Graph<System, (), Undirected>, w: &Vec<usize>) -> (ids: Vec<u32>)
    requires
        forall|k: int| 0 <= k < w.len() ==> (#[trigger] w[k]) < graph_nodes(*graph).len(),
    ensures
        ids@ == topology(graph).ids_along(w@),
{
    let mut ids: Vec<u32> = Vec::new();
    let mut i: usize = 0;
    while i < w.len()
        invariant
            i <= w.len(),
            ids.len() == i,
            forall|k: int| 0 <= k < w.len() ==> (#[trigger] w[k]) < graph_nodes(*graph).len(),
            forall|k: int| 0 <= k < i ==> ids[k] == topology(graph).id_at(w[k] as int),
        decreases w.len() - i,
    {
        ids.push(system_at(graph, w[i]).id);
        i += 1;
    }
    assert(ids@ =~= topology(graph).ids_along(w@));
    ids
}

/// The positions that one round from `anchor` consumes, in the order of
/// travel: the longest simple path that leaves `anchor`, without `anchor`,
/// then a shortest walk from its end back to `anchor`, without its first
/// position. Nothing where `anchor` is no position of the graph or no path
/// leaves it.
pub fn trunk_segment(graph: &Graph<System, (), Undirected>, anchor: usize) -> (segment: Option<
    Vec<usize>,
>)
    ensures
        match segment {
            Some(s) => exists|out: Seq<usize>, back: Seq<usize>| #[trigger]
                topology(graph).is_round(anchor as int, out, back) && s@ == out.skip(1)
                    + back.skip(1),
            None => topology(graph).is_longest_from(anchor as int, None),
        },
{
    let found = longest_simple_path(graph, anchor);
    match found {
        None => None,
        Some(longest) => {
            let end = longest[longest.len() - 1];
            let back = shortest_path(graph, end, anchor);
            proof {
                lemma_reverse_walk(topology(graph), longest@);
                assert(topology(graph).reachable(end as int, anchor as int));
            }
            let back = back.unwrap();
            let mut segment: Vec<usize> = Vec::new();
            append_tail(&mut segment, &longest);
            append_tail(&mut segment, &back);
            proof {
                assert(segment@ =~= longest@.skip(1) + back@.skip(1));
                assert(topology(graph).is_round(anchor as int, longest@, back@));
            }
            Some(segment)
        },
    }
}

/// The graph that is left when a round has consumed the positions
/// `consumed`: the subgraph induced by all other positions and `anchor`,
/// which always stays. It is smaller than `graph` as soon as a position
/// other than `anchor` was consumed.
pub fn reduce(graph: &Graph<System, (), Undirected>, consumed: &Vec<usize>, anchor: usize) -> (reduced:
    Graph<System, (), Undirected>)
    ensures
        topology(&reduced) == topology(graph).induced(
            unconsumed(graph_nodes(*graph).len(), consumed@, anchor),
        ),
        topology(&reduced).well_formed(),
        graph_nodes(reduced).len() <= graph_nodes(*graph).len(),
        (exists|k: int|
            0 <= k < consumed.len() && #[trigger] consumed[k] < graph_nodes(*graph).len()
                && consumed[k] != anchor) ==> graph_nodes(reduced).len() < graph_nodes(
            *graph,
        ).len(),
        anchor < graph_nodes(*graph).len() ==> ({
            let at = rank(unconsumed(graph_nodes(*graph).len(), consumed@, anchor), anchor as int);
            at < graph_nodes(reduced).len() && graph_nodes(reduced)[at as int] == graph_nodes(
                *graph,
            )[anchor as int]
        }),
{
    let spared = |i: usize, s: &System| -> (b: bool)
        ensures
            b == (!consumed@.contains(i) || i == anchor),
        { !contains_position(consumed, i) || i == anchor };
    let reduced = filter_nodes(graph, spared);
    proof {
        let m = topology(graph);
        let n = m.size();
        let expected = unconsumed(n, consumed@, anchor);
        let keep = choose|keep: Seq<bool>| #[trigger]
            answers(spared, m, keep) && topology(&reduced) == m.induced(keep);
        assert(keep =~= expected);
        lemma_select_len(m.systems, expected);
        lemma_rank_step(expected, 0, n as int);
        if exists|k: int| 0 <= k < consumed.len() && #[trigger] consumed[k] < n && consumed[k]
            != anchor {
            let k = choose|k: int|
                0 <= k < consumed.len() && #[trigger] consumed[k] < n && consumed[k] != anchor;
            assert(consumed@.contains(consumed@[k]));
            lemma_rank_drop(expected, n as int, consumed[k] as int);
        }
        if anchor < n {
            lemma_induced_at(m, expected, anchor as int);
        }
    }
    reduced
}

/// What is left to explore from the system `id`: the subgraph of
/// `whole` induced by `id` and by the systems that are neither on
/// `flat` nor on `placed`. It is smaller than `whole` as soon as some
/// other system of `whole` is on one of the two.
pub fn unexplored_from(
    whole: &Graph<System, (), Undirected>,
    flat: &Vec<u32>,
    placed: &Vec<u32>,
    id: u32,
) -> (sub: Graph<System, (), Undirected>)
    requires
        topology(whole).well_formed(),
    ensures
        topology(&sub) == topology(whole).unexplored_from(flat@, placed@, id),
        restricts(topology(&sub), topology(whole), unexplored(flat@, placed@, id)),
        topology(&sub).well_formed(),
        topology(whole).distinct_ids() ==> topology(&sub).distinct_ids(),
        graph_nodes(sub).len() <= graph_nodes(*whole).len(),
        (exists|x: u32|
            #[trigger] topology(whole).has_id(x) && x != id && (flat@.contains(x)
                || placed@.contains(x))) ==> graph_nodes(sub).len() < graph_nodes(*whole).len(),
{
    let open = |i: usize, s: &System| -> (b: bool)
        ensures
            b == ((!flat@.contains(s.id) && !placed@.contains(s.id)) || s.id == id),
        { (!contains_id(flat, s.id) && !contains_id(placed, s.id)) || s.id == id };
    let sub = filter_nodes(whole, open);
    proof {
        let m = topology(whole);
        let chosen = unexplored(flat@, placed@, id);
        let expected = marks_of(m, chosen);
        let keep = choose|keep: Seq<bool>| #[trigger]
            answers(open, m, keep) && topology(&sub) == m.induced(keep);
        assert(keep =~= expected);
        assert(marks(m, expected, chosen));
        lemma_induced_restricts(m, expected, chosen);
        lemma_induced_well_formed(m, expected);
        if exists|x: u32| #[trigger]
            m.has_id(x) && x != id && (flat@.contains(x) || placed@.contains(x)) {
            let x = choose|x: u32| #[trigger]
                m.has_id(x) && x != id && (flat@.contains(x) || placed@.contains(x));
            let i = choose|i: int| 0 <= i < m.size() && #[trigger] m.id_at(i) == x;
            lemma_rank_drop(expected, m.size() as int, i);
        }
    }
    sub
}

/// The rounds from `start_id`, one after the other, until no path leaves
/// it: each round travels a longest simple path from the anchor through
/// what is left of the graph, returns by a shortest walk, and takes every
/// system it passed, but the anchor, out of the graph. The result lists
/// the identifiers passed, in order: a trunk from `start_id`.
pub fn exhaust_trunks(whole: &Graph<System, (), Undirected>, start_id: u32) -> (flat: Vec<u32>)
    requires
        topology(whole).proper(),
        topology(whole).has_id(start_id),
    ensures
        topology(whole).is_trunk(start_id, flat@),
{
    let ghost m = topology(whole);
    let mut graph = copy_graph(whole);
    let mut result: Vec<u32> = Vec::new();
    proof {
        assert(topology(&graph) == m);
        assert(m.is_route(seq![start_id] + result@));
        assert forall|rest: Seq<u32>| #[trigger] m.is_trunk(start_id, rest) implies m.is_trunk(
            start_id,
            result@ + rest,
        ) by {
            assert(result@ + rest =~= rest);
        }
    }
    loop
        invariant
            m == topology(whole),
            forall|rest: Seq<u32>| #[trigger]
                topology(&graph).is_trunk(start_id, rest) ==> m.is_trunk(start_id, result@ + rest),
            restricts(topology(&graph), m, unspent(result@, start_id)),
            topology(&graph).proper(),
            topology(&graph).has_id(start_id),
            m.is_route(seq![start_id] + result@),
            result.len() > 0 ==> result@.last() == start_id,
        decreases graph_nodes(graph).len(),
    {
        let ghost w = topology(&graph);
        let found = find_system(&graph, start_id);
        let start_index = found.unwrap();
        let n = node_count(&graph);
        match trunk_segment(&graph, start_index) {
            None => {
                proof {
                    lemma_trunk_exhausted(m, w, start_id, start_index as int, result@);
                    assert(result@ + Seq::<u32>::empty() =~= result@);
                }
                return result;
            },
            Some(full_path) => {
                let ghost (out, back) = choose|out: Seq<usize>, back: Seq<usize>| #[trigger]
                    w.is_round(start_index as int, out, back) && full_path@ == out.skip(1)
                        + back.skip(1);
                proof {
                    lemma_round(w, start_index as int, out, back);
                }
                let mut full_path_id = ids_along(&graph, &full_path);
                let ghost spent = full_path_id@;
                let ghost before = result@;
                result.append(&mut full_path_id);
                let reduced = reduce(&graph, &full_path, start_index);
                proof {
                    assert(w.starts_round(start_id, start_index as int, out, back));
                    assert(topology(&reduced) == w.after_round(start_index as int, out, back));
                    lemma_round_taken(m, w, start_id, start_index as int, out, back, before);
                    assert(full_path[0] < n && full_path[0] != start_index);
                    lemma_trunk_extends(m, w, start_id, start_index as int, out, back, before);
                    assert(before + w.ids_along(full_path@) == result@);
                }
                graph = reduced;
            },
        }
    }
}

/// The route that covers what can be reached from `start_id`. The trunk is
/// what `exhaust_trunks` yields on the whole graph. The route follows the
/// trunk; where it meets a system for the first time, it makes a detour:
/// the route, found in the same way, through the systems that neither the
/// trunk nor the route so far has passed, from that system and back.
///
/// The result is a plan from `start_id`, and so a round trip: a journey
/// from `start_id`, each system joined to the next by a jump, that ends at
/// `start_id` (or is empty, where no jump leaves `start_id`) and passes
/// exactly the systems that can be reached from `start_id`.
pub fn find_longest_paths(whole_graph: Graph<System, (), Undirected>, start_id: u32) -> (route:
    Vec<u32>)
    requires
        topology(&whole_graph).proper(),
        topology(&whole_graph).has_id(start_id),
    ensures
        topology(&whole_graph).is_plan(start_id, route@),
        topology(&whole_graph).is_tour(start_id, route@),
        forall|x: u32|
            (x == start_id || route@.contains(x)) <==> #[trigger] topology(
                &whole_graph,
            ).id_reachable(start_id, x),
    decreases graph_nodes(whole_graph).len(),
{
    broadcast use vstd::std_specs::hash::group_hash_axioms;

    let ghost m = topology(&whole_graph);
    let result = exhaust_trunks(&whole_graph, start_id);
    let mut final_result: Vec<u32> = Vec::new();
    proof {
        lemma_trunk_is_journey(m, start_id, result@);
    }
    let mut visited: HashSet<u32> = HashSet::new();
    visited.insert(start_id);
    let mut i: usize = 0;
    while i < result.len()
        invariant
            m == topology(&whole_graph),
            m.proper(),
            m.has_id(start_id),
            i <= result.len(),
            m.is_route(seq![start_id] + result@),
            result.len() > 0 ==> result@.last() == start_id,
            forall|x: u32|
                visited@.contains(x) <==> (x == start_id || result@.take(i as int).contains(x)),
            forall|route: Seq<u32>| #[trigger]
                m.is_spliced(start_id, result@, i as int, final_result@, route) ==> m.is_spliced(
                    start_id,
                    result@,
                    0,
                    Seq::empty(),
                    route,
                ),
        decreases result.len() - i,
    {
        let id = result[i];
        let ghost before = final_result@;
        final_result.push(id);
        proof {
            assert(result@.take(i + 1) =~= result@.take(i as int).push(id));
            assert forall|x: u32|
                visited@.insert(id).contains(x) <==> (x == start_id || result@.take(
                    i + 1,
                ).contains(x)) by {
                lemma_contains_push(result@.take(i as int), id, x);
            }
        }
        if !visited.contains(&id) {
            let sub_graph = unexplored_from(&whole_graph, &result, &final_result, id);
            proof {
                lemma_route_has_ids(m, start_id, result@, i as int);
                assert(result@.contains(result@[result.len() - 1]));
                assert(unexplored(result@, final_result@, id).contains(id));
            }
            let mut path = find_longest_paths(sub_graph, id);
            proof {
                assert forall|route: Seq<u32>| #[trigger]
                    m.is_spliced(
                        start_id,
                        result@,
                        i + 1,
                        before.push(id) + path@,
                        route,
                    ) implies m.is_spliced(start_id, result@, 0, Seq::empty(), route) by {
                    lemma_splice_detours(m, start_id, result@, i as int, before, path@, route);
                }
            }
            final_result.append(&mut path);
            visited.insert(id);
        } else {
            proof {
                assert forall|route: Seq<u32>| #[trigger]
                    m.is_spliced(
                        start_id,
                        result@,
                        i + 1,
                        final_result@,
                        route,
                    ) implies m.is_spliced(start_id, result@, 0, Seq::empty(), route) by {
                    lemma_splice_passes(m, start_id, result@, i as int, before, route);
                }
                assert(visited@.insert(id) =~= visited@);
            }
        }
        i += 1;
    }
    proof {
        assert(m.is_spliced(start_id, result@, result.len() as int, final_result@, final_result@));
        lemma_plan_is_tour(m, start_id, final_result@);
        lemma_tour_covers(m, start_id, final_result@);
    }
    final_result
}

/// Why no route could be planned.
#[derive(Clone, Copy, Debug, PartialEq, Eq, Structural)]
pub enum PlanError {
    /// No system of the graph carries the identifier of the start.
    UnknownStart,
    /// Two systems of the graph carry one identifier.
    RepeatedIdentifier,
}

/// The route of `find_longest_paths` from `start`, for any graph and any
/// identifier: it is refused where no system carries `start`, and else
/// where two systems share an identifier.
pub fn plan_coverage(graph: &Graph<System, (), Undirected>, start: u32) -> (planned: Result<
    Vec<u32>,
    PlanError,
>)
    ensures
        match planned {
            Ok(route) => topology(graph).has_id(start) && topology(graph).proper()
                && topology(graph).is_plan(start, route@) && topology(graph).is_tour(
                start,
                route@,
            ) && forall|x: u32|
                (x == start || route@.contains(x)) <==> #[trigger] topology(graph).id_reachable(
                    start,
                    x,
                ),
            Err(PlanError::UnknownStart) => !topology(graph).has_id(start),
            Err(PlanError::RepeatedIdentifier) => topology(graph).has_id(start) && !topology(
                graph,
            ).proper(),
        },
{
    let found = find_system(graph, start);
    if found.is_none() {
        return Err(PlanError::UnknownStart);
    }
    assert(topology(graph).id_at(found->0 as int) == start);
    if !is_proper(graph) {
        return Err(PlanError::RepeatedIdentifier);
    }
    Ok(find_longest_paths(copy_graph(graph), start))
}

} // verus!
