//! What holds of every path, round and plan.

use vstd::prelude::*;
use crate::journey::{
    lemma_contains_add, lemma_contains_push, lemma_restricts_route, lemma_route_has_ids,
    lemma_route_join, lemma_route_push, lemma_tour_covers,
};
use crate::plan::{marks_of, unconsumed, unexplored};
use crate::restriction::{lemma_induced_at, lemma_induced_restricts, lemma_induced_well_formed};
use crate::rounds::{lemma_round, lemma_splice_closed, lemma_trunk_is_journey};
use crate::topology::{lemma_rank_drop, rank, Topology};

verus! {

impl Topology {
    /// The identifiers that the systems carry.
    pub open spec fn id_set(self) -> Set<u32> {
        Set::new(|x: u32| self.has_id(x))
    }
}

/// A simple path names every system at most once: where no two systems
/// share an identifier, the identifiers along a simple path from `anchor`
/// begin with that of `anchor` and hold none twice.
pub proof fn lemma_simple_path_names_once(m: Topology, anchor: int, target: int, p: Seq<usize>)
    requires
        m.distinct_ids(),
        m.is_simple_path(anchor, target, p),
    ensures
        m.ids_along(p).len() == p.len(),
        m.ids_along(p)[0] == m.id_at(anchor),
        m.ids_along(p).no_duplicates(),
{
    let ids = m.ids_along(p);
    assert forall|i: int, j: int| 0 <= i < ids.len() && 0 <= j < ids.len() && i != j implies ids[i]
        != ids[j] by {
        assert(p[i] < m.size() && p[j] < m.size());
        assert(p[i] != p[j]);
    }
}

/// A plan visits what can be reached: the systems on a plan from `start`,
/// with `start`, are exactly those to which a journey leads from `start`.
pub proof fn lemma_plan_covers(m: Topology, start: u32, route: Seq<u32>)
    requires
        m.proper(),
        m.has_id(start),
        m.is_plan(start, route),
    ensures
        forall|x: u32| (x == start || route.contains(x)) <==> #[trigger] m.id_reachable(start, x),
{
    lemma_plan_is_tour(m, start, route);
    lemma_tour_covers(m, start, route);
}

/// In a connected graph a plan from `start` visits every system: the
/// identifiers on the route, with `start`, are those of the graph, and
/// where the graph holds another system than `start`, the identifiers on
/// the route alone are.
pub proof fn lemma_connected_plan_visits_all(m: Topology, start: u32, route: Seq<u32>)
    requires
        m.proper(),
        m.has_id(start),
        m.connected(),
        m.is_plan(start, route),
    ensures
        route.to_set().insert(start) == m.id_set(),
        (exists|x: u32| m.has_id(x) && x != start) ==> route.to_set() == m.id_set(),
{
    lemma_plan_is_tour(m, start, route);
    lemma_tour_covers(m, start, route);
    assert forall|x: u32| route.to_set().insert(start).contains(x) == m.id_set().contains(x) by {
        if m.has_id(x) {
            assert(m.id_reachable(start, x));
        }
        if route.contains(x) {
            let k = choose|k: int| 0 <= k < route.len() && route[k] == x;
            lemma_route_has_ids(m, start, route, k);
        }
    }
    assert(route.to_set().insert(start) =~= m.id_set());
    if exists|x: u32| m.has_id(x) && x != start {
        let x = choose|x: u32| m.has_id(x) && x != start;
        assert(m.id_reachable(start, x));
        assert(route.contains(x));
        assert(route.contains(route.last()));
        assert(route.to_set().insert(start) =~= route.to_set());
    }
}

/// What splicing has placed stays: the route so far begins every route
/// that splicing can still yield.
pub proof fn lemma_spliced_keeps(
    m: Topology,
    start: u32,
    flat: Seq<u32>,
    i: int,
    placed: Seq<u32>,
    route: Seq<u32>,
)
    requires
        0 <= i <= flat.len(),
        m.is_spliced(start, flat, i, placed, route),
    ensures
        placed.len() <= route.len(),
        route.take(placed.len() as int) == placed,
    decreases flat.len() - i,
{
    if i >= flat.len() {
        assert(route.take(placed.len() as int) =~= placed);
    } else if flat[i] == start || flat.take(i).contains(flat[i]) {
        let next = placed.push(flat[i]);
        lemma_spliced_keeps(m, start, flat, i + 1, next, route);
        assert(route.take(placed.len() as int) =~= route.take(next.len() as int).take(
            placed.len() as int,
        ));
        assert(next.take(placed.len() as int) =~= placed);
    } else {
        let detour = choose|detour: Seq<u32>|
            #![trigger placed.push(flat[i]) + detour]
            {
                &&& m.unexplored_from(flat, placed.push(flat[i]), flat[i]).size() < m.size()
                &&& m.unexplored_from(flat, placed.push(flat[i]), flat[i]).is_plan(
                    flat[i],
                    detour,
                )
                &&& m.is_spliced(start, flat, i + 1, placed.push(flat[i]) + detour, route)
            };
        let next = placed.push(flat[i]) + detour;
        lemma_spliced_keeps(m, start, flat, i + 1, next, route);
        assert(route.take(placed.len() as int) =~= route.take(next.len() as int).take(
            placed.len() as int,
        ));
        assert(next.take(placed.len() as int) =~= placed);
    }
}

/// A trunk that is not empty begins with another system than `start`.
pub proof fn lemma_trunk_leaves(m: Topology, start: u32, flat: Seq<u32>)
    requires
        m.proper(),
        m.is_trunk(start, flat),
        flat.len() > 0,
    ensures
        flat[0] != start,
{
    let (anchor, out, back) = choose|anchor: int, out: Seq<usize>, back: Seq<usize>| #[trigger]
        m.starts_round(start, anchor, out, back) && {
            let passed = out.skip(1) + back.skip(1);
            &&& 0 < passed.len() <= flat.len()
            &&& flat.take(passed.len() as int) == m.ids_along(passed)
            &&& m.after_round(anchor, out, back).is_trunk(start, flat.skip(passed.len() as int))
        };
    let passed = out.skip(1) + back.skip(1);
    lemma_round(m, anchor, out, back);
    assert(flat[0] == flat.take(passed.len() as int)[0]);
    assert(m.ids_along(passed)[0] == m.id_at(passed[0] as int));
}

/// A plan that is not empty leaves `start` and ends there: its first
/// system is another one than `start`, joined to it by a jump, and its
/// last system is `start`. The journey as a whole is the start followed by
/// the plan.
pub proof fn lemma_plan_returns(m: Topology, start: u32, route: Seq<u32>)
    requires
        m.proper(),
        m.has_id(start),
        m.is_plan(start, route),
        route.len() > 0,
    ensures
        route[0] != start,
        m.id_linked(start, route[0]),
        route.last() == start,
{
    lemma_plan_is_tour(m, start, route);
    lemma_route_has_ids(m, start, route, 0);
    let flat = choose|flat: Seq<u32>| #[trigger]
        m.is_trunk(start, flat) && m.is_spliced(start, flat, 0, Seq::empty(), route);
    let nothing = Seq::<u32>::empty();
    if flat.len() == 0 {
        assert(route == nothing);
    } else {
        lemma_trunk_leaves(m, start, flat);
        assert(!flat.take(0).contains(flat[0]));
        let detour = choose|detour: Seq<u32>|
            #![trigger nothing.push(flat[0]) + detour]
            {
                &&& m.unexplored_from(flat, nothing.push(flat[0]), flat[0]).size() < m.size()
                &&& m.unexplored_from(flat, nothing.push(flat[0]), flat[0]).is_plan(
                    flat[0],
                    detour,
                )
                &&& m.is_spliced(start, flat, 1, nothing.push(flat[0]) + detour, route)
            };
        let next = nothing.push(flat[0]) + detour;
        lemma_spliced_keeps(m, start, flat, 1, next, route);
        assert(route[0] == route.take(next.len() as int)[0]);
    }
}

/// Two plans from one start through one graph visit the same systems,
/// whichever paths they took where several were longest or shortest.
pub proof fn lemma_plans_visit_the_same(m: Topology, start: u32, first: Seq<u32>, second: Seq<u32>)
    requires
        m.proper(),
        m.has_id(start),
        m.is_plan(start, first),
        m.is_plan(start, second),
    ensures
        first.to_set().insert(start) == second.to_set().insert(start),
{
    lemma_plan_covers(m, start, first);
    lemma_plan_covers(m, start, second);
    assert forall|x: u32|
        first.to_set().insert(start).contains(x) == second.to_set().insert(start).contains(x) by {
        if first.contains(x) {
            assert(m.id_reachable(start, x));
        }
        if second.contains(x) {
            assert(m.id_reachable(start, x));
        }
    }
    assert(first.to_set().insert(start) =~= second.to_set().insert(start));
}

/// A round shrinks the graph: what is left once the positions of a round
/// are taken out holds fewer systems than before, and still holds the
/// anchor.
pub proof fn lemma_round_shrinks(m: Topology, anchor: usize, out: Seq<usize>, back: Seq<usize>)
    requires
        m.well_formed(),
        m.size() <= usize::MAX,
        anchor < m.size(),
        m.is_round(anchor as int, out, back),
    ensures
        ({
            let keep = unconsumed(m.size(), out.skip(1) + back.skip(1), anchor);
            &&& m.induced(keep).size() < m.size()
            &&& rank(keep, anchor as int) < m.induced(keep).size()
            &&& m.induced(keep).systems[rank(keep, anchor as int) as int] == m.systems[anchor as int]
        }),
{
    let seg = out.skip(1) + back.skip(1);
    let keep = unconsumed(m.size(), seg, anchor);
    lemma_round(m, anchor as int, out, back);
    lemma_induced_well_formed(m, keep);
    assert(seg.contains(seg[0]));
    lemma_rank_drop(keep, m.size() as int, seg[0] as int);
    lemma_induced_at(m, keep, anchor as int);
}

/// A detour is planned on a smaller graph: once the trunk has passed
/// `start`, what is left to explore from another system holds fewer
/// systems than the graph.
pub proof fn lemma_detour_shrinks(
    m: Topology,
    start: u32,
    flat: Seq<u32>,
    placed: Seq<u32>,
    id: u32,
)
    requires
        m.well_formed(),
        m.has_id(start),
        flat.contains(start),
        id != start,
    ensures
        m.induced(marks_of(m, unexplored(flat, placed, id))).size() < m.size(),
{
    let keep = marks_of(m, unexplored(flat, placed, id));
    let i = choose|i: int| 0 <= i < m.size() && #[trigger] m.id_at(i) == start;
    lemma_induced_well_formed(m, keep);
    lemma_rank_drop(keep, m.size() as int, i);
}

/// Splicing ends in a round trip: where the trunk `flat` is a journey from
/// `start` and back that passes every neighbour of `start`, and the route
/// so far follows the first `i` systems of the trunk, with their detours,
/// and is closed but for the trunk, every route that splicing can still
/// yield is a round trip from `start`.
pub proof fn lemma_spliced_is_tour(
    m: Topology,
    start: u32,
    flat: Seq<u32>,
    i: int,
    placed: Seq<u32>,
    route: Seq<u32>,
)
    requires
        m.proper(),
        m.has_id(start),
        m.is_route(seq![start] + flat),
        flat.len() > 0 ==> flat.last() == start,
        forall|y: u32| #[trigger] m.id_linked(start, y) ==> y == start || flat.contains(y),
        0 <= i <= flat.len(),
        m.is_route(seq![start] + placed),
        i == 0 ==> placed.len() == 0,
        i > 0 ==> placed.len() > 0 && placed.last() == flat[i - 1],
        forall|k: int| 0 <= k < i ==> placed.contains(#[trigger] flat[k]),
        forall|x: u32, y: u32|
            placed.contains(x) && #[trigger] m.id_linked(x, y) ==> y == start || flat.contains(y)
                || placed.contains(y),
        m.is_spliced(start, flat, i, placed, route),
    ensures
        m.is_tour(start, route),
    decreases m.size(), 0nat, flat.len() - i,
{
    if i >= flat.len() {
        assert forall|x: u32, y: u32|
            (x == start || route.contains(x)) && #[trigger] m.id_linked(x, y) implies y == start
            || route.contains(y) by {
            if flat.contains(y) {
                let k = choose|k: int| 0 <= k < flat.len() && flat[k] == y;
                assert(placed.contains(flat[k]));
            }
        }
    } else {
        let id = flat[i];
        let next = placed.push(id);
        lemma_route_has_ids(m, start, flat, i);
        assert((seq![start] + placed).last() == (seq![start] + flat)[i]);
        lemma_route_push(m, seq![start] + placed, id);
        assert((seq![start] + placed).push(id) =~= seq![start] + next);
        assert(next.drop_last() =~= placed);
        assert forall|k: int| 0 <= k < i + 1 implies next.contains(#[trigger] flat[k]) by {
            lemma_contains_push(placed, id, flat[k]);
        }
        if id == start || flat.take(i).contains(id) {
            assert forall|x: u32, y: u32| next.contains(x) && #[trigger] m.id_linked(x, y) implies y
                == start || flat.contains(y) || next.contains(y) by {
                lemma_contains_push(placed, id, x);
                lemma_contains_push(placed, id, y);
                if x == id && id != start {
                    let k = choose|k: int| 0 <= k < i && flat.take(i)[k] == id;
                    assert(placed.contains(flat[k]));
                }
            }
            lemma_spliced_is_tour(m, start, flat, i + 1, next, route);
        } else {
            let detour = choose|detour: Seq<u32>|
                #![trigger placed.push(flat[i]) + detour]
                {
                    &&& m.unexplored_from(flat, placed.push(flat[i]), flat[i]).size() < m.size()
                    &&& m.unexplored_from(flat, placed.push(flat[i]), flat[i]).is_plan(
                        flat[i],
                        detour,
                    )
                    &&& m.is_spliced(start, flat, i + 1, placed.push(flat[i]) + detour, route)
                };
            let chosen = unexplored(flat, next, id);
            let sub = m.unexplored_from(flat, next, id);
            lemma_induced_restricts(m, marks_of(m, chosen), chosen);
            lemma_induced_well_formed(m, marks_of(m, chosen));
            assert(chosen.contains(id));
            lemma_plan_is_tour(sub, id, detour);
            lemma_splice_closed(m, sub, start, flat, next, id, detour);
            lemma_restricts_route(sub, m, chosen, seq![id] + detour);
            lemma_route_join(m, seq![start] + next, seq![id] + detour);
            assert((seq![start] + next) + (seq![id] + detour).skip(1) =~= seq![start] + (next
                + detour));
            assert forall|k: int| 0 <= k < i + 1 implies (next + detour).contains(
                #[trigger] flat[k],
            ) by {
                lemma_contains_add(next, detour, flat[k]);
            }
            lemma_spliced_is_tour(m, start, flat, i + 1, next + detour, route);
        }
    }
}

/// Every plan is a round trip: a plan from `start` is a journey from
/// `start`, each system joined to the next by a jump, that ends at `start`
/// or is empty, and that passes every system joined by a jump to `start`
/// or to a system on it.
pub proof fn lemma_plan_is_tour(m: Topology, start: u32, route: Seq<u32>)
    requires
        m.proper(),
        m.has_id(start),
        m.is_plan(start, route),
    ensures
        m.is_tour(start, route),
    decreases m.size(), 1nat, 0nat,
{
    let flat = choose|flat: Seq<u32>| #[trigger]
        m.is_trunk(start, flat) && m.is_spliced(start, flat, 0, Seq::empty(), route);
    lemma_trunk_is_journey(m, start, flat);
    assert(m.is_route(seq![start] + Seq::<u32>::empty()));
    lemma_spliced_is_tour(m, start, flat, 0, Seq::empty(), route);
}

} // verus!
