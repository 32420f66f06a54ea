//! What a plan is: rounds, trunks and spliced detours.

use vstd::prelude::*;
use crate::topology::Topology;

verus! {

/// The marks that spare every position but those in `consumed`, and spare
/// `anchor` in any case.
pub open spec fn unconsumed(n: nat, consumed: Seq<usize>, anchor: usize) -> Seq<bool> {
    Seq::new(n, |i: int| !consumed.contains(i as usize) || i == anchor)
}

/// The identifiers that are neither on `flat` nor on `placed`, and `id` in
/// any case.
pub open spec fn unexplored(flat: Seq<u32>, placed: Seq<u32>, id: u32) -> Set<u32> {
    Set::new(|x: u32| (!flat.contains(x) && !placed.contains(x)) || x == id)
}

/// The marks of the positions whose identifier lies in `chosen`.
pub open spec fn marks_of(m: Topology, chosen: Set<u32>) -> Seq<bool> {
    Seq::new(m.size(), |i: int| chosen.contains(m.id_at(i)))
}

impl Topology {
    /// `w` is a walk from `from` to `to` that no other such walk undercuts
    /// in length.
    pub open spec fn is_shortest(self, from: int, to: int, w: Seq<usize>) -> bool {
        &&& self.is_walk(w)
        &&& w[0] == from
        &&& w.last() == to
        &&& forall|v: Seq<usize>| #[trigger]
            self.is_walk(v) && v[0] == from && v.last() == to ==> w.len() <= v.len()
    }

    /// One round from `anchor`: `out` is a longest simple path that leaves
    /// `anchor`, and `back` a shortest walk from its end to `anchor`.
    pub open spec fn is_round(self, anchor: int, out: Seq<usize>, back: Seq<usize>) -> bool {
        self.is_longest_from(anchor, Some(out)) && self.is_shortest(
            out.last() as int,
            anchor,
            back,
        )
    }

    /// `anchor` is the first position that holds a system with the
    /// identifier `id`.
    pub open spec fn is_anchor(self, anchor: int, id: u32) -> bool {
        &&& 0 <= anchor < self.size()
        &&& self.id_at(anchor) == id
        &&& forall|k: int| 0 <= k < anchor ==> self.id_at(k) != id
    }

    /// A round from the anchor of `start`.
    pub open spec fn starts_round(
        self,
        start: u32,
        anchor: int,
        out: Seq<usize>,
        back: Seq<usize>,
    ) -> bool {
        self.is_anchor(anchor, start) && self.is_round(anchor, out, back)
    }

    /// What is left of the graph after a round from `anchor`: the subgraph
    /// induced by `anchor` and the positions that the round did not pass.
    pub open spec fn after_round(self, anchor: int, out: Seq<usize>, back: Seq<usize>) -> Topology {
        self.induced(unconsumed(self.size(), out.skip(1) + back.skip(1), anchor as usize))
    }

    /// `flat` is a trunk from `start`: the identifiers passed by rounds
    /// from the anchor of `start`, each through what the rounds before it
    /// left of the graph, until no path leaves the anchor. A round passes
    /// the positions of its longest path, without the anchor, and then
    /// those of its way back, without the first.
    pub open spec fn is_trunk(self, start: u32, flat: Seq<u32>) -> bool
        decreases flat.len(),
    {
        if flat.len() == 0 {
            exists|anchor: int| #[trigger]
                self.is_anchor(anchor, start) && self.is_longest_from(anchor, None)
        } else {
            exists|anchor: int, out: Seq<usize>, back: Seq<usize>| #[trigger]
                self.starts_round(start, anchor, out, back) && {
                    let passed = out.skip(1) + back.skip(1);
                    &&& 0 < passed.len() <= flat.len()
                    &&& flat.take(passed.len() as int) == self.ids_along(passed)
                    &&& self.after_round(anchor, out, back).is_trunk(
                        start,
                        flat.skip(passed.len() as int),
                    )
                }
        }
    }

    /// What is left to explore from the system `id` once the trunk `flat`
    /// is known and the route has placed `placed`.
    pub open spec fn unexplored_from(self, flat: Seq<u32>, placed: Seq<u32>, id: u32) -> Topology {
        self.induced(marks_of(self, unexplored(flat, placed, id)))
    }

    /// `route` is a plan from `start`: a trunk from `start` with a detour
    /// spliced in behind every system that the trunk meets for the first
    /// time.
    pub open spec fn is_plan(self, start: u32, route: Seq<u32>) -> bool
        decreases self.size(), 1nat, 0nat,
    {
        exists|flat: Seq<u32>| #[trigger]
            self.is_trunk(start, flat) && self.is_spliced(start, flat, 0, Seq::empty(), route)
    }

    /// `route` is what splicing yields when the first `i` identifiers of
    /// the trunk `flat` are dealt with and the route so far is `placed`:
    /// each further identifier of the trunk is placed, and where it is
    /// neither `start` nor met before on the trunk, a plan from it through
    /// what is left to explore is placed behind it.
    pub open spec fn is_spliced(
        self,
        start: u32,
        flat: Seq<u32>,
        i: int,
        placed: Seq<u32>,
        route: Seq<u32>,
    ) -> bool
        decreases self.size(), 0nat, flat.len() - i,
    {
        if i < 0 || i >= flat.len() {
            route == placed
        } else if flat[i] == start || flat.take(i).contains(flat[i]) {
            self.is_spliced(start, flat, i + 1, placed.push(flat[i]), route)
        } else {
            exists|detour: Seq<u32>|
                #![trigger placed.push(flat[i]) + detour]
                {
                    &&& self.unexplored_from(flat, placed.push(flat[i]), flat[i]).size()
                        < self.size()
                    &&& self.unexplored_from(flat, placed.push(flat[i]), flat[i]).is_plan(
                        flat[i],
                        detour,
                    )
                    &&& self.is_spliced(
                        start,
                        flat,
                        i + 1,
                        placed.push(flat[i]) + detour,
                        route,
                    )
                }
        }
    }
}

/// A round and a trunk through what it leaves make a trunk.
pub proof fn lemma_trunk_grows(
    m: Topology,
    start: u32,
    anchor: int,
    out: Seq<usize>,
    back: Seq<usize>,
    rest: Seq<u32>,
)
    requires
        m.starts_round(start, anchor, out, back),
        out.skip(1).len() + back.skip(1).len() > 0,
        m.after_round(anchor, out, back).is_trunk(start, rest),
    ensures
        m.is_trunk(start, m.ids_along(out.skip(1) + back.skip(1)) + rest),
{
    let passed = out.skip(1) + back.skip(1);
    let flat = m.ids_along(passed) + rest;
    assert(flat.take(passed.len() as int) =~= m.ids_along(passed));
    assert(flat.skip(passed.len() as int) =~= rest);
}

/// Splicing goes on behind a system that needs no detour.
pub proof fn lemma_splice_passes(
    m: Topology,
    start: u32,
    flat: Seq<u32>,
    i: int,
    placed: Seq<u32>,
    route: Seq<u32>,
)
    requires
        0 <= i < flat.len(),
        flat[i] == start || flat.take(i).contains(flat[i]),
        m.is_spliced(start, flat, i + 1, placed.push(flat[i]), route),
    ensures
        m.is_spliced(start, flat, i, placed, route),
{
}

/// Splicing goes on behind a detour.
pub proof fn lemma_splice_detours(
    m: Topology,
    start: u32,
    flat: Seq<u32>,
    i: int,
    placed: Seq<u32>,
    detour: Seq<u32>,
    route: Seq<u32>,
)
    requires
        0 <= i < flat.len(),
        flat[i] != start,
        !flat.take(i).contains(flat[i]),
        m.unexplored_from(flat, placed.push(flat[i]), flat[i]).size() < m.size(),
        m.unexplored_from(flat, placed.push(flat[i]), flat[i]).is_plan(flat[i], detour),
        m.is_spliced(start, flat, i + 1, placed.push(flat[i]) + detour, route),
    ensures
        m.is_spliced(start, flat, i, placed, route),
{
}

} // verus!
