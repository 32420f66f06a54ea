//! The mathematical content of a jump graph, and what it means to induce a
//! subgraph.

use vstd::prelude::*;
use crate::system::System;

verus! {

/// The mathematical content of a jump graph: its systems in node order and
/// its jumps as pairs of node positions, in edge order.
pub struct Topology {
    pub systems: Seq<System>,
    pub jumps: Seq<(usize, usize)>,
}

impl Topology {
    /// The number of systems.
    pub open spec fn size(self) -> nat {
        self.systems.len()
    }

    /// Every jump joins two positions that hold a system.
    pub open spec fn well_formed(self) -> bool {
        forall|k: int|
            0 <= k < self.jumps.len() ==> (#[trigger] self.jumps[k]).0 < self.size()
                && self.jumps[k].1 < self.size()
    }

    /// The graph is one that the planner works on: it is well formed, its
    /// positions fit the machine, and no identifier is carried twice.
    pub open spec fn proper(self) -> bool {
        self.well_formed() && self.distinct_ids() && self.size() <= usize::MAX
    }

    /// The identifier of the system at position `i`.
    pub open spec fn id_at(self, i: int) -> u32 {
        self.systems[i].id
    }

    /// No identifier is carried by two systems.
    pub open spec fn distinct_ids(self) -> bool {
        forall|i: int, j: int|
            0 <= i < self.size() && 0 <= j < self.size() && self.id_at(i) == self.id_at(j) ==> i
                == j
    }

    /// Some system carries the identifier `id`.
    pub open spec fn has_id(self, id: u32) -> bool {
        exists|i: int| 0 <= i < self.size() && #[trigger] self.id_at(i) == id
    }

    /// Positions `i` and `j` are joined by a jump, in either direction.
    pub open spec fn linked(self, i: int, j: int) -> bool {
        exists|k: int|
            0 <= k < self.jumps.len() && (((#[trigger] self.jumps[k]).0 == i && self.jumps[k].1
                == j) || (self.jumps[k].0 == j && self.jumps[k].1 == i))
    }

    /// `w` is a non-empty sequence of positions, each joined to the next.
    pub open spec fn is_walk(self, w: Seq<usize>) -> bool {
        &&& w.len() > 0
        &&& forall|k: int| 0 <= k < w.len() ==> (#[trigger] w[k]) < self.size()
        &&& forall|k: int|
            0 <= k < w.len() - 1 ==> self.linked((#[trigger] w[k]) as int, w[k + 1] as int)
    }

    /// `p` is a walk from `from` to `to` that visits no position twice.
    pub open spec fn is_simple_path(self, from: int, to: int, p: Seq<usize>) -> bool {
        &&& self.is_walk(p)
        &&& p[0] == from
        &&& p.last() == to
        &&& p.no_duplicates()
    }

    /// Some walk leads from position `i` to position `j`.
    pub open spec fn reachable(self, i: int, j: int) -> bool {
        exists|w: Seq<usize>| #[trigger] self.is_walk(w) && w[0] == i && w.last() == j
    }

    /// The identifiers found along a sequence of positions.
    pub open spec fn ids_along(self, w: Seq<usize>) -> Seq<u32> {
        Seq::new(w.len(), |k: int| self.id_at(w[k] as int))
    }

    /// The systems identified by `x` and `y` are joined by a jump.
    pub open spec fn id_linked(self, x: u32, y: u32) -> bool {
        exists|i: int, j: int|
            0 <= i < self.size() && 0 <= j < self.size() && self.id_at(i) == x && self.id_at(j)
                == y && #[trigger] self.linked(i, j)
    }

    /// `r` names a journey: every identifier is joined to the next by a jump.
    pub open spec fn is_route(self, r: Seq<u32>) -> bool {
        forall|k: int| 0 <= k < r.len() - 1 ==> self.id_linked(#[trigger] r[k], r[k + 1])
    }

    /// A journey leads from the system `x` to the system `y`.
    pub open spec fn id_reachable(self, x: u32, y: u32) -> bool {
        exists|r: Seq<u32>|
            r.len() > 0 && r[0] == x && r.last() == y && self.has_id(x) && #[trigger] self.is_route(
                r,
            )
    }

    /// Every system can be reached from every other.
    pub open spec fn connected(self) -> bool {
        forall|x: u32, y: u32| self.has_id(x) && self.has_id(y) ==> self.id_reachable(x, y)
    }

    /// The subgraph on the positions that `keep` marks: those systems, in
    /// their old order, and the jumps whose two ends both stay, in their old
    /// order, each end renumbered by its new position.
    pub open spec fn induced(self, keep: Seq<bool>) -> Topology {
        Topology { systems: select(self.systems, keep), jumps: remap(self.jumps, keep) }
    }
}

/// How many of the positions below `i` are marked.
pub open spec fn rank(keep: Seq<bool>, i: int) -> nat
    decreases i,
{
    if i <= 0 {
        0
    } else {
        rank(keep, i - 1) + if keep[i - 1] {
            1nat
        } else {
            0nat
        }
    }
}

/// The marked elements of `s`, in order.
pub open spec fn select<T>(s: Seq<T>, keep: Seq<bool>) -> Seq<T>
    decreases s.len(),
{
    if s.len() == 0 {
        Seq::empty()
    } else if keep[s.len() - 1] {
        select(s.drop_last(), keep).push(s.last())
    } else {
        select(s.drop_last(), keep)
    }
}

/// The jumps whose two ends are marked, in order, renumbered by rank.
pub open spec fn remap(jumps: Seq<(usize, usize)>, keep: Seq<bool>) -> Seq<(usize, usize)>
    decreases jumps.len(),
{
    if jumps.len() == 0 {
        Seq::empty()
    } else {
        let e = jumps.last();
        let rest = remap(jumps.drop_last(), keep);
        if keep[e.0 as int] && keep[e.1 as int] {
            rest.push((rank(keep, e.0 as int) as usize, rank(keep, e.1 as int) as usize))
        } else {
            rest
        }
    }
}

/// The rank grows with the position, by at most one per step, and strictly
/// past a marked position.
pub proof fn lemma_rank_step(keep: Seq<bool>, i: int, j: int)
    requires
        0 <= i <= j,
    ensures
        rank(keep, i) <= rank(keep, j),
        rank(keep, j) - rank(keep, i) <= j - i,
        i < j && keep[i] ==> rank(keep, i) < rank(keep, j),
    decreases j - i,
{
    if i < j {
        lemma_rank_step(keep, i, j - 1);
    }
}

/// Two marked positions of equal rank are one position.
pub proof fn lemma_rank_injective(keep: Seq<bool>, i: int, j: int)
    requires
        0 <= i,
        0 <= j,
        keep[i],
        keep[j],
        rank(keep, i) == rank(keep, j),
    ensures
        i == j,
{
    if i < j {
        lemma_rank_step(keep, i, j);
    } else if j < i {
        lemma_rank_step(keep, j, i);
    }
}

/// The selection has one element per marked position.
pub proof fn lemma_select_len<T>(s: Seq<T>, keep: Seq<bool>)
    ensures
        select(s, keep).len() == rank(keep, s.len() as int),
    decreases s.len(),
{
    if s.len() > 0 {
        lemma_select_len(s.drop_last(), keep);
    }
}

/// The element at a marked position is found in the selection at its rank.
pub proof fn lemma_select_at<T>(s: Seq<T>, keep: Seq<bool>, i: int)
    requires
        0 <= i < s.len(),
        keep[i],
    ensures
        rank(keep, i) < select(s, keep).len(),
        select(s, keep)[rank(keep, i) as int] == s[i],
    decreases s.len(),
{
    let n = s.len() as int;
    lemma_select_len(s, keep);
    lemma_select_len(s.drop_last(), keep);
    lemma_rank_step(keep, i, n);
    if i < n - 1 {
        lemma_select_at(s.drop_last(), keep, i);
    }
}

/// Every rank below the number of marked positions belongs to a marked
/// position.
pub proof fn lemma_rank_origin(keep: Seq<bool>, n: int, k: int) -> (i: int)
    requires
        0 <= k < rank(keep, n),
    ensures
        0 <= i < n,
        keep[i],
        rank(keep, i) == k,
    decreases n,
{
    if k == rank(keep, n - 1) {
        n - 1
    } else {
        lemma_rank_origin(keep, n - 1, k)
    }
}

/// Every renumbered jump comes from a jump with both ends marked.
pub proof fn lemma_remap_source(jumps: Seq<(usize, usize)>, keep: Seq<bool>, e: int) -> (k: int)
    requires
        0 <= e < remap(jumps, keep).len(),
    ensures
        0 <= k < jumps.len(),
        keep[jumps[k].0 as int],
        keep[jumps[k].1 as int],
        remap(jumps, keep)[e] == (
            rank(keep, jumps[k].0 as int) as usize,
            rank(keep, jumps[k].1 as int) as usize,
        ),
    decreases jumps.len(),
{
    let last = jumps.last();
    let rest = remap(jumps.drop_last(), keep);
    if keep[last.0 as int] && keep[last.1 as int] && e == rest.len() {
        jumps.len() - 1
    } else {
        lemma_remap_source(jumps.drop_last(), keep, e)
    }
}

/// Every jump with both ends marked is found again, renumbered.
pub proof fn lemma_remap_image(jumps: Seq<(usize, usize)>, keep: Seq<bool>, k: int) -> (e: int)
    requires
        0 <= k < jumps.len(),
        keep[jumps[k].0 as int],
        keep[jumps[k].1 as int],
    ensures
        0 <= e < remap(jumps, keep).len(),
        remap(jumps, keep)[e] == (
            rank(keep, jumps[k].0 as int) as usize,
            rank(keep, jumps[k].1 as int) as usize,
        ),
    decreases jumps.len(),
{
    if k == jumps.len() - 1 {
        remap(jumps.drop_last(), keep).len() as int
    } else {
        lemma_remap_image(jumps.drop_last(), keep, k)
    }
}

/// Marks that leave a position out leave fewer positions than there were.
pub proof fn lemma_rank_drop(keep: Seq<bool>, n: int, i: int)
    requires
        0 <= i < n,
        !keep[i],
    ensures
        rank(keep, n) < n,
{
    lemma_rank_step(keep, 0, i);
    lemma_rank_step(keep, i + 1, n);
    assert(rank(keep, i + 1) == rank(keep, i));
}

} // verus!
