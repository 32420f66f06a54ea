//! Induced subgraphs, position by position and identifier by identifier.

use vstd::prelude::*;
use crate::topology::{
    lemma_rank_injective, lemma_rank_origin, lemma_rank_step, lemma_remap_image,
    lemma_remap_source, lemma_select_at, lemma_select_len, rank, Topology,
};

verus! {

/// `keep` marks exactly the positions of `m` whose identifier lies in
/// `chosen`.
pub open spec fn marks(m: Topology, keep: Seq<bool>, chosen: Set<u32>) -> bool {
    &&& keep.len() == m.size()
    &&& forall|i: int| 0 <= i < m.size() ==> #[trigger] keep[i] == chosen.contains(m.id_at(i))
}

/// `sub` is `whole` cut down to the systems whose identifier lies in
/// `chosen`: it holds those systems and the jumps between them.
pub open spec fn restricts(sub: Topology, whole: Topology, chosen: Set<u32>) -> bool {
    &&& forall|x: u32|
        #![trigger sub.has_id(x)]
        #![trigger chosen.contains(x)]
        sub.has_id(x) <==> whole.has_id(x) && chosen.contains(x)
    &&& forall|x: u32, y: u32|
        #![trigger sub.id_linked(x, y)]
        #![trigger whole.id_linked(x, y)]
        sub.id_linked(x, y) <==> whole.id_linked(x, y) && chosen.contains(x) && chosen.contains(y)
}

/// The system at a marked position is found in the induced subgraph at the
/// position's rank.
pub proof fn lemma_induced_at(m: Topology, keep: Seq<bool>, i: int)
    requires
        keep.len() == m.size(),
        0 <= i < m.size(),
        keep[i],
    ensures
        rank(keep, i) < m.induced(keep).size(),
        m.induced(keep).systems[rank(keep, i) as int] == m.systems[i],
        m.induced(keep).id_at(rank(keep, i) as int) == m.id_at(i),
{
    lemma_select_at(m.systems, keep, i);
}

/// Every position of the induced subgraph is the rank of a marked position.
pub proof fn lemma_induced_origin(m: Topology, keep: Seq<bool>, k: int) -> (i: int)
    requires
        keep.len() == m.size(),
        0 <= k < m.induced(keep).size(),
    ensures
        0 <= i < m.size(),
        keep[i],
        rank(keep, i) == k,
        m.induced(keep).systems[k] == m.systems[i],
        m.induced(keep).id_at(k) == m.id_at(i),
{
    lemma_select_len(m.systems, keep);
    let i = lemma_rank_origin(keep, m.size() as int, k);
    lemma_select_at(m.systems, keep, i);
    i
}

/// The induced subgraph is well formed and holds one system per marked
/// position.
pub proof fn lemma_induced_well_formed(m: Topology, keep: Seq<bool>)
    requires
        m.well_formed(),
        keep.len() == m.size(),
    ensures
        m.induced(keep).well_formed(),
        m.induced(keep).size() == rank(keep, m.size() as int),
        m.induced(keep).size() <= m.size(),
{
    let sub = m.induced(keep);
    lemma_select_len(m.systems, keep);
    lemma_rank_step(keep, 0, m.size() as int);
    assert forall|e: int| 0 <= e < sub.jumps.len() implies (#[trigger] sub.jumps[e]).0 < sub.size()
        && sub.jumps[e].1 < sub.size() by {
        let k = lemma_remap_source(m.jumps, keep, e);
        let a = m.jumps[k].0 as int;
        let b = m.jumps[k].1 as int;
        lemma_rank_step(keep, a, m.size() as int);
        lemma_rank_step(keep, b, m.size() as int);
        lemma_rank_step(keep, 0, a);
        lemma_rank_step(keep, 0, b);
    }
}

/// Two marked positions are joined in the induced subgraph, at their ranks,
/// exactly when they are joined in the whole graph.
pub proof fn lemma_induced_linked(m: Topology, keep: Seq<bool>, i: int, j: int)
    requires
        m.well_formed(),
        keep.len() == m.size(),
        0 <= i < m.size(),
        0 <= j < m.size(),
        keep[i],
        keep[j],
    ensures
        m.induced(keep).linked(rank(keep, i) as int, rank(keep, j) as int) == m.linked(i, j),
{
    let sub = m.induced(keep);
    let ri = rank(keep, i) as int;
    let rj = rank(keep, j) as int;
    lemma_rank_step(keep, 0, i);
    lemma_rank_step(keep, 0, j);
    if m.linked(i, j) {
        let k = choose|k: int|
            0 <= k < m.jumps.len() && (((#[trigger] m.jumps[k]).0 == i && m.jumps[k].1 == j) || (
            m.jumps[k].0 == j && m.jumps[k].1 == i));
        let e = lemma_remap_image(m.jumps, keep, k);
        assert((sub.jumps[e].0 == ri && sub.jumps[e].1 == rj) || (sub.jumps[e].0 == rj
            && sub.jumps[e].1 == ri));
    }
    if sub.linked(ri, rj) {
        let e = choose|e: int|
            0 <= e < sub.jumps.len() && (((#[trigger] sub.jumps[e]).0 == ri && sub.jumps[e].1
                == rj) || (sub.jumps[e].0 == rj && sub.jumps[e].1 == ri));
        let k = lemma_remap_source(m.jumps, keep, e);
        let a = m.jumps[k].0 as int;
        let b = m.jumps[k].1 as int;
        lemma_rank_step(keep, 0, a);
        lemma_rank_step(keep, 0, b);
        if rank(keep, a) == ri {
            lemma_rank_injective(keep, a, i);
            lemma_rank_injective(keep, b, j);
        } else {
            lemma_rank_injective(keep, a, j);
            lemma_rank_injective(keep, b, i);
        }
    }
}

/// Marking by identifier cuts the graph down to the chosen identifiers.
pub proof fn lemma_induced_restricts(m: Topology, keep: Seq<bool>, chosen: Set<u32>)
    requires
        m.well_formed(),
        marks(m, keep, chosen),
    ensures
        restricts(m.induced(keep), m, chosen),
        m.induced(keep).well_formed(),
        m.distinct_ids() ==> m.induced(keep).distinct_ids(),
{
    let sub = m.induced(keep);
    lemma_induced_well_formed(m, keep);
    assert forall|x: u32| sub.has_id(x) implies m.has_id(x) && chosen.contains(x) by {
        let k = choose|k: int| 0 <= k < sub.size() && #[trigger] sub.id_at(k) == x;
        let i = lemma_induced_origin(m, keep, k);
        assert(m.id_at(i) == x);
    }
    assert forall|x: u32| m.has_id(x) && chosen.contains(x) implies sub.has_id(x) by {
        let i = choose|i: int| 0 <= i < m.size() && #[trigger] m.id_at(i) == x;
        assert(keep[i]);
        lemma_induced_at(m, keep, i);
        assert(sub.id_at(rank(keep, i) as int) == x);
    }
    assert forall|x: u32, y: u32| sub.id_linked(x, y) implies m.id_linked(x, y) && chosen.contains(
        x,
    ) && chosen.contains(y) by {
        let (k1, k2) = choose|k1: int, k2: int|
            0 <= k1 < sub.size() && 0 <= k2 < sub.size() && sub.id_at(k1) == x && sub.id_at(k2)
                == y && #[trigger] sub.linked(k1, k2);
        let i = lemma_induced_origin(m, keep, k1);
        let j = lemma_induced_origin(m, keep, k2);
        lemma_induced_linked(m, keep, i, j);
        assert(m.linked(i, j));
    }
    assert forall|x: u32, y: u32|
        m.id_linked(x, y) && chosen.contains(x) && chosen.contains(y) implies sub.id_linked(
        x,
        y,
    ) by {
        let (i, j) = choose|i: int, j: int|
            0 <= i < m.size() && 0 <= j < m.size() && m.id_at(i) == x && m.id_at(j) == y
                && #[trigger] m.linked(i, j);
        assert(keep[i] && keep[j]);
        lemma_induced_at(m, keep, i);
        lemma_induced_at(m, keep, j);
        lemma_induced_linked(m, keep, i, j);
        assert(sub.linked(rank(keep, i) as int, rank(keep, j) as int));
    }
    if m.distinct_ids() {
        assert forall|k1: int, k2: int|
            0 <= k1 < sub.size() && 0 <= k2 < sub.size() && sub.id_at(k1) == sub.id_at(
                k2,
            ) implies k1 == k2 by {
            let i = lemma_induced_origin(m, keep, k1);
            let j = lemma_induced_origin(m, keep, k2);
        }
    }
}

/// A restriction of a restriction is a restriction.
pub proof fn lemma_restricts_compose(
    inner: Topology,
    middle: Topology,
    whole: Topology,
    first: Set<u32>,
    second: Set<u32>,
    both: Set<u32>,
)
    requires
        restricts(middle, whole, first),
        restricts(inner, middle, second),
        forall|x: u32| both.contains(x) == (first.contains(x) && second.contains(x)),
    ensures
        restricts(inner, whole, both),
{
    assert forall|x: u32, y: u32|
        #![trigger inner.id_linked(x, y)]
        #![trigger whole.id_linked(x, y)]
        inner.id_linked(x, y) <==> whole.id_linked(x, y) && both.contains(x) && both.contains(
            y,
        ) by {
        if inner.id_linked(x, y) {
            assert(middle.id_linked(x, y));
        }
        if whole.id_linked(x, y) && both.contains(x) && both.contains(y) {
            assert(middle.id_linked(x, y));
        }
    }
    assert forall|x: u32|
        #![trigger inner.has_id(x)]
        #![trigger both.contains(x)]
        inner.has_id(x) <==> whole.has_id(x) && both.contains(x) by {
        if inner.has_id(x) {
            assert(middle.has_id(x));
        }
        if whole.has_id(x) && both.contains(x) {
            assert(first.contains(x));
            assert(middle.has_id(x));
        }
    }
}

/// The positions of a walk, each renumbered by its rank.
pub open spec fn renumbered(keep: Seq<bool>, w: Seq<usize>) -> Seq<usize> {
    Seq::new(w.len(), |k: int| rank(keep, w[k] as int) as usize)
}

/// A walk through marked positions is a walk of the induced subgraph, once
/// renumbered, along the same identifiers.
pub proof fn lemma_induced_walk(m: Topology, keep: Seq<bool>, w: Seq<usize>)
    requires
        m.well_formed(),
        m.size() <= usize::MAX,
        keep.len() == m.size(),
        m.is_walk(w),
        forall|k: int| 0 <= k < w.len() ==> keep[(#[trigger] w[k]) as int],
    ensures
        m.induced(keep).is_walk(renumbered(keep, w)),
        m.induced(keep).ids_along(renumbered(keep, w)) == m.ids_along(w),
{
    let sub = m.induced(keep);
    let v = renumbered(keep, w);
    lemma_induced_well_formed(m, keep);
    assert forall|k: int| 0 <= k < v.len() implies (#[trigger] v[k]) < sub.size()
        && sub.id_at(v[k] as int) == m.id_at(w[k] as int) by {
        assert(keep[w[k] as int]);
        lemma_induced_at(m, keep, w[k] as int);
    }
    assert forall|k: int| 0 <= k < v.len() - 1 implies sub.linked(
        (#[trigger] v[k]) as int,
        v[k + 1] as int,
    ) by {
        assert(keep[w[k] as int] && keep[w[k + 1] as int]);
        assert(m.linked(w[k] as int, w[k + 1] as int));
        lemma_induced_at(m, keep, w[k] as int);
        lemma_induced_at(m, keep, w[k + 1] as int);
        lemma_induced_linked(m, keep, w[k] as int, w[k + 1] as int);
    }
    assert(sub.ids_along(v) =~= m.ids_along(w));
}

} // verus!
