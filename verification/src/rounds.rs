//! What rounds and trunks do to a graph and to a journey.

use vstd::prelude::*;
use crate::journey::{
    lemma_contains_add, lemma_contains_push, lemma_restricts_route, lemma_route_has_ids,
    lemma_route_join, lemma_walk_join, lemma_walk_route,
};
use crate::plan::{lemma_trunk_grows, unconsumed, unexplored};
use crate::restriction::{
    lemma_induced_restricts, lemma_induced_well_formed, lemma_restricts_compose, restricts,
};
use crate::topology::Topology;

verus! {

/// The identifiers that are not on `flat`, and `start` in any case.
pub open spec fn unspent(flat: Seq<u32>, start: u32) -> Set<u32> {
    Set::new(|x: u32| !flat.contains(x) || x == start)
}

/// What one round yields, position by position: the consumed positions lie
/// in the graph, begin with a position other than `anchor` and end with
/// `anchor`, and their identifiers continue a journey from `anchor`.
pub proof fn lemma_round(m: Topology, anchor: int, out: Seq<usize>, back: Seq<usize>)
    requires
        0 <= anchor < m.size(),
        m.is_round(anchor, out, back),
    ensures
        ({
            let seg = out.skip(1) + back.skip(1);
            &&& seg.len() >= 2
            &&& seg[0] != anchor
            &&& seg.last() == anchor
            &&& forall|k: int| 0 <= k < seg.len() ==> (#[trigger] seg[k]) < m.size()
            &&& m.is_route(seq![m.id_at(anchor)] + m.ids_along(seg))
        }),
{
    let seg = out.skip(1) + back.skip(1);
    let whole = out + back.skip(1);
    assert(out[0] != out[out.len() - 1]);
    assert(back.len() >= 2);
    lemma_walk_join(m, out, back);
    lemma_walk_route(m, whole);
    assert(whole =~= seq![anchor as usize] + seg);
    assert(m.ids_along(whole) =~= seq![m.id_at(anchor)] + m.ids_along(seg));
    assert(seg[0] == out[1]);
    assert(seg.last() == back.last());
    assert forall|k: int| 0 <= k < seg.len() implies (#[trigger] seg[k]) < m.size() by {
        assert(seg[k] == whole[k + 1]);
    }
}

/// Sparing the positions that a round did not consume cuts the graph down
/// to the identifiers that the round did not spend.
pub proof fn lemma_reduce_restricts(m: Topology, seg: Seq<usize>, anchor: usize)
    requires
        m.well_formed(),
        m.distinct_ids(),
        m.size() <= usize::MAX,
        anchor < m.size(),
        forall|k: int| 0 <= k < seg.len() ==> (#[trigger] seg[k]) < m.size(),
    ensures
        restricts(
            m.induced(unconsumed(m.size(), seg, anchor)),
            m,
            unspent(m.ids_along(seg), m.id_at(anchor as int)),
        ),
        m.induced(unconsumed(m.size(), seg, anchor)).distinct_ids(),
{
    let keep = unconsumed(m.size(), seg, anchor);
    let ids = m.ids_along(seg);
    let chosen = unspent(ids, m.id_at(anchor as int));
    assert forall|i: int| 0 <= i < m.size() implies #[trigger] keep[i] == chosen.contains(
        m.id_at(i),
    ) by {
        if seg.contains(i as usize) {
            let k = choose|k: int| 0 <= k < seg.len() && seg[k] == i as usize;
            assert(ids[k] == m.id_at(i));
        }
        if ids.contains(m.id_at(i)) {
            let k = choose|k: int| 0 <= k < ids.len() && ids[k] == m.id_at(i);
            assert(seg[k] < m.size());
            assert(seg[k] == i);
        }
    }
    lemma_induced_restricts(m, keep, chosen);
}

/// Where no path leaves the anchor of a restriction, every system that a
/// jump of the whole graph joins to the anchor lies outside the restriction.
pub proof fn lemma_exhausted(
    sub: Topology,
    whole: Topology,
    chosen: Set<u32>,
    anchor: int,
    y: u32,
)
    requires
        restricts(sub, whole, chosen),
        sub.distinct_ids(),
        0 <= anchor < sub.size(),
        sub.is_longest_from(anchor, None),
        chosen.contains(sub.id_at(anchor)),
        whole.id_linked(sub.id_at(anchor), y),
        y != sub.id_at(anchor),
    ensures
        !chosen.contains(y),
{
    let start = sub.id_at(anchor);
    if chosen.contains(y) {
        assert(sub.id_linked(start, y));
        let (i, j) = choose|i: int, j: int|
            0 <= i < sub.size() && 0 <= j < sub.size() && sub.id_at(i) == start && sub.id_at(j)
                == y && #[trigger] sub.linked(i, j);
        assert(i == anchor);
        let p = seq![anchor as usize, j as usize];
        assert(sub.is_walk(p)) by {
            assert forall|k: int| 0 <= k < p.len() - 1 implies sub.linked(
                (#[trigger] p[k]) as int,
                p[k + 1] as int,
            ) by {
                assert(k == 0);
            }
        }
        assert(p.no_duplicates());
        assert(sub.is_path_from(anchor, p));
    }
}

/// What a round leaves behind: where the graph at hand is the whole graph
/// cut down to what the journey so far has not spent, the graph after one
/// more round is the whole graph cut down to what the longer journey has
/// not spent, and the longer journey is a journey that ends at `start`.
pub proof fn lemma_round_taken(
    whole: Topology,
    w: Topology,
    start: u32,
    anchor: int,
    out: Seq<usize>,
    back: Seq<usize>,
    before: Seq<u32>,
)
    requires
        w.well_formed(),
        w.distinct_ids(),
        w.size() <= usize::MAX,
        w.starts_round(start, anchor, out, back),
        restricts(w, whole, unspent(before, start)),
        whole.is_route(seq![start] + before),
        before.len() > 0 ==> before.last() == start,
    ensures
        ({
            let after = before + w.ids_along(out.skip(1) + back.skip(1));
            let left = w.after_round(anchor, out, back);
            &&& restricts(left, whole, unspent(after, start))
            &&& left.distinct_ids()
            &&& left.has_id(start)
            &&& whole.is_route(seq![start] + after)
            &&& after.len() > 0
            &&& after.last() == start
        }),
{
    let seg = out.skip(1) + back.skip(1);
    let spent = w.ids_along(seg);
    let after = before + spent;
    let left = w.after_round(anchor, out, back);
    lemma_round(w, anchor, out, back);
    lemma_restricts_route(w, whole, unspent(before, start), seq![start] + spent);
    lemma_route_join(whole, seq![start] + before, seq![start] + spent);
    assert((seq![start] + before) + (seq![start] + spent).skip(1) =~= seq![start] + after);
    assert(after.last() == spent.last());
    lemma_reduce_restricts(w, seg, anchor as usize);
    assert forall|x: u32|
        unspent(after, start).contains(x) == (unspent(before, start).contains(x) && unspent(
            spent,
            start,
        ).contains(x)) by {
        lemma_contains_add(before, spent, x);
    }
    lemma_restricts_compose(
        left,
        w,
        whole,
        unspent(before, start),
        unspent(spent, start),
        unspent(after, start),
    );
    assert(unspent(after, start).contains(start));
    assert(w.has_id(start));
}

/// Where no path leaves the anchor, the trunk is at its end: every system
/// that a jump of the whole graph joins to `start` is on the journey so far,
/// and the empty journey is a trunk through what is left.
pub proof fn lemma_trunk_exhausted(
    whole: Topology,
    w: Topology,
    start: u32,
    anchor: int,
    flat: Seq<u32>,
)
    requires
        restricts(w, whole, unspent(flat, start)),
        w.distinct_ids(),
        w.is_anchor(anchor, start),
        w.is_longest_from(anchor, None),
    ensures
        forall|y: u32| #[trigger] whole.id_linked(start, y) ==> y == start || flat.contains(y),
        w.is_trunk(start, Seq::empty()),
{
    assert forall|y: u32| #[trigger] whole.id_linked(start, y) implies y == start
        || flat.contains(y) by {
        if y != start {
            lemma_exhausted(w, whole, unspent(flat, start), anchor, y);
        }
    }
}

/// Where every trunk through the graph at hand continues the journey so far
/// to a trunk through the whole graph, every trunk through what a round
/// leaves continues the longer journey to one.
pub proof fn lemma_trunk_extends(
    whole: Topology,
    w: Topology,
    start: u32,
    anchor: int,
    out: Seq<usize>,
    back: Seq<usize>,
    before: Seq<u32>,
)
    requires
        w.starts_round(start, anchor, out, back),
        out.skip(1).len() + back.skip(1).len() > 0,
        forall|rest: Seq<u32>| #[trigger]
            w.is_trunk(start, rest) ==> whole.is_trunk(start, before + rest),
    ensures
        forall|rest: Seq<u32>| #[trigger]
            w.after_round(anchor, out, back).is_trunk(start, rest) ==> whole.is_trunk(
                start,
                (before + w.ids_along(out.skip(1) + back.skip(1))) + rest,
            ),
{
    let spent = w.ids_along(out.skip(1) + back.skip(1));
    assert forall|rest: Seq<u32>| #[trigger]
        w.after_round(anchor, out, back).is_trunk(start, rest) implies whole.is_trunk(
        start,
        (before + spent) + rest,
    ) by {
        lemma_trunk_grows(w, start, anchor, out, back, rest);
        assert(w.is_trunk(start, spent + rest));
        assert(before + (spent + rest) =~= (before + spent) + rest);
    }
}

/// Splicing the round trip of a detour into a journey keeps the journey
/// closed: where every jump from a system placed so far leads to `start`,
/// to the trunk or to a system placed so far, the same holds once the
/// detour from `id`, a round trip through what was unexplored, is placed.
pub proof fn lemma_splice_closed(
    m: Topology,
    sub: Topology,
    start: u32,
    flat: Seq<u32>,
    placed: Seq<u32>,
    id: u32,
    detour: Seq<u32>,
)
    requires
        restricts(sub, m, unexplored(flat, placed, id)),
        placed.len() > 0,
        placed.last() == id,
        sub.is_tour(id, detour),
        forall|x: u32, y: u32|
            placed.drop_last().contains(x) && #[trigger] m.id_linked(x, y) ==> y == start
                || flat.contains(y) || placed.drop_last().contains(y),
    ensures
        forall|x: u32, y: u32|
            (placed + detour).contains(x) && #[trigger] m.id_linked(x, y) ==> y == start
                || flat.contains(y) || (placed + detour).contains(y),
{
    let chosen = unexplored(flat, placed, id);
    let after = placed + detour;
    assert(placed =~= placed.drop_last().push(id));
    assert forall|x: u32, y: u32| after.contains(x) && #[trigger] m.id_linked(x, y) implies y
        == start || flat.contains(y) || after.contains(y) by {
        lemma_contains_add(placed, detour, x);
        lemma_contains_add(placed, detour, y);
        lemma_contains_push(placed.drop_last(), id, x);
        lemma_contains_push(placed.drop_last(), id, y);
        if x == id || detour.contains(x) {
            if detour.contains(x) {
                let k = choose|k: int| 0 <= k < detour.len() && detour[k] == x;
                lemma_route_has_ids(sub, id, detour, k);
            }
            assert(chosen.contains(x));
            if chosen.contains(y) {
                assert(sub.id_linked(x, y));
            }
        }
    }
}

/// A trunk continues a journey: where the graph at hand is the whole graph
/// cut down to what the journey so far has not spent, a trunk through the
/// graph at hand continues the journey to one that ends at `start` and
/// passes every system that a jump of the whole graph joins to `start`.
pub proof fn lemma_trunk_continues(
    whole: Topology,
    w: Topology,
    start: u32,
    before: Seq<u32>,
    rest: Seq<u32>,
)
    requires
        w.proper(),
        restricts(w, whole, unspent(before, start)),
        whole.is_route(seq![start] + before),
        before.len() > 0 ==> before.last() == start,
        w.is_trunk(start, rest),
    ensures
        whole.is_route(seq![start] + (before + rest)),
        (before + rest).len() > 0 ==> (before + rest).last() == start,
        forall|y: u32| #[trigger]
            whole.id_linked(start, y) ==> y == start || (before + rest).contains(y),
    decreases rest.len(),
{
    if rest.len() == 0 {
        let anchor = choose|anchor: int| #[trigger]
            w.is_anchor(anchor, start) && w.is_longest_from(anchor, None);
        lemma_trunk_exhausted(whole, w, start, anchor, before);
        assert(before + rest =~= before);
    } else {
        let (anchor, out, back) = choose|anchor: int, out: Seq<usize>, back: Seq<usize>| #[trigger]
            w.starts_round(start, anchor, out, back) && {
                let passed = out.skip(1) + back.skip(1);
                &&& 0 < passed.len() <= rest.len()
                &&& rest.take(passed.len() as int) == w.ids_along(passed)
                &&& w.after_round(anchor, out, back).is_trunk(
                    start,
                    rest.skip(passed.len() as int),
                )
            };
        let passed = out.skip(1) + back.skip(1);
        let spent = w.ids_along(passed);
        let left = w.after_round(anchor, out, back);
        lemma_round_taken(whole, w, start, anchor, out, back, before);
        lemma_induced_well_formed(w, unconsumed(w.size(), passed, anchor as usize));
        lemma_trunk_continues(whole, left, start, before + spent, rest.skip(passed.len() as int));
        assert((before + spent) + rest.skip(passed.len() as int) =~= before + rest) by {
            assert(rest.take(passed.len() as int) + rest.skip(passed.len() as int) =~= rest);
        }
    }
}

/// A trunk from `start` is a journey from `start` that ends at `start`, or
/// is empty, and passes every system that a jump joins to `start`.
pub proof fn lemma_trunk_is_journey(m: Topology, start: u32, flat: Seq<u32>)
    requires
        m.proper(),
        m.is_trunk(start, flat),
    ensures
        m.is_route(seq![start] + flat),
        flat.len() > 0 ==> flat.last() == start,
        forall|y: u32| #[trigger] m.id_linked(start, y) ==> y == start || flat.contains(y),
{
    let nothing = Seq::<u32>::empty();
    assert(restricts(m, m, unspent(nothing, start)));
    assert(m.is_route(seq![start] + nothing));
    lemma_trunk_continues(m, m, start, nothing, flat);
    assert(nothing + flat =~= flat);
}

} // verus!
