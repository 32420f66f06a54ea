//! Walks over positions and journeys over identifiers.

use vstd::prelude::*;
use crate::restriction::restricts;
use crate::topology::Topology;

verus! {

impl Topology {
    /// Every system joined by a jump to `start` or to a system on `route`
    /// is `start` or on `route`.
    pub open spec fn closed_under_jumps(self, start: u32, route: Seq<u32>) -> bool {
        forall|x: u32, y: u32|
            (x == start || route.contains(x)) && #[trigger] self.id_linked(x, y) ==> y == start
                || route.contains(y)
    }

    /// `route` is a round trip from `start`: a journey that leaves `start`,
    /// comes back to it at the end, and passes every system that a jump
    /// joins to it.
    pub open spec fn is_tour(self, start: u32, route: Seq<u32>) -> bool {
        &&& self.is_route(seq![start] + route)
        &&& route.len() > 0 ==> route.last() == start
        &&& self.closed_under_jumps(start, route)
    }
}

/// An element of a concatenation is an element of one of its parts.
pub proof fn lemma_contains_add<T>(a: Seq<T>, b: Seq<T>, x: T)
    ensures
        (a + b).contains(x) == (a.contains(x) || b.contains(x)),
{
    if a.contains(x) {
        let k = choose|k: int| 0 <= k < a.len() && a[k] == x;
        assert((a + b)[k] == x);
    }
    if b.contains(x) {
        let k = choose|k: int| 0 <= k < b.len() && b[k] == x;
        assert((a + b)[a.len() + k] == x);
    }
    if (a + b).contains(x) {
        let k = choose|k: int| 0 <= k < (a + b).len() && (a + b)[k] == x;
        if k < a.len() {
            assert(a[k] == x);
        } else {
            assert(b[k - a.len()] == x);
        }
    }
}

/// Two walks of which the second starts where the first ends make one walk.
pub proof fn lemma_walk_join(m: Topology, a: Seq<usize>, b: Seq<usize>)
    requires
        m.is_walk(a),
        m.is_walk(b),
        a.last() == b[0],
    ensures
        m.is_walk(a + b.skip(1)),
{
    let w = a + b.skip(1);
    assert forall|k: int| 0 <= k < w.len() implies (#[trigger] w[k]) < m.size() by {
        if k >= a.len() {
            assert(w[k] == b[k - a.len() + 1]);
        }
    }
    assert forall|k: int| 0 <= k < w.len() - 1 implies m.linked(
        (#[trigger] w[k]) as int,
        w[k + 1] as int,
    ) by {
        if k < a.len() - 1 {
            assert(m.linked(a[k] as int, a[k + 1] as int));
        } else {
            let j = k - a.len() + 1;
            assert(m.linked(b[j] as int, b[j + 1] as int));
            assert(w[k + 1] == b[j + 1]);
            if j == 0 {
                assert(w[k] == a.last());
            } else {
                assert(w[k] == b[j]);
            }
        }
    }
}

/// The identifiers along a walk name a journey.
pub proof fn lemma_walk_route(m: Topology, w: Seq<usize>)
    requires
        m.is_walk(w),
    ensures
        m.is_route(m.ids_along(w)),
{
    let r = m.ids_along(w);
    assert forall|k: int| 0 <= k < r.len() - 1 implies m.id_linked(#[trigger] r[k], r[k + 1]) by {
        assert(m.linked(w[k] as int, w[k + 1] as int));
        assert(w[k] < m.size() && w[k + 1] < m.size());
    }
}

/// Two journeys of which the second starts where the first ends make one
/// journey.
pub proof fn lemma_route_join(m: Topology, a: Seq<u32>, b: Seq<u32>)
    requires
        m.is_route(a),
        m.is_route(b),
        a.len() > 0,
        b.len() > 0,
        a.last() == b[0],
    ensures
        m.is_route(a + b.skip(1)),
{
    let r = a + b.skip(1);
    assert forall|k: int| 0 <= k < r.len() - 1 implies m.id_linked(#[trigger] r[k], r[k + 1]) by {
        if k < a.len() - 1 {
            assert(m.id_linked(a[k], a[k + 1]));
        } else {
            let j = k - a.len() + 1;
            assert(m.id_linked(b[j], b[j + 1]));
            assert(r[k + 1] == b[j + 1]);
            if j == 0 {
                assert(r[k] == a.last());
            } else {
                assert(r[k] == b[j]);
            }
        }
    }
}

/// A journey goes on by a jump from its last system.
pub proof fn lemma_route_push(m: Topology, a: Seq<u32>, u: u32)
    requires
        m.is_route(a),
        a.len() > 0,
        m.id_linked(a.last(), u),
    ensures
        m.is_route(a.push(u)),
{
    let r = a.push(u);
    assert forall|k: int| 0 <= k < r.len() - 1 implies m.id_linked(#[trigger] r[k], r[k + 1]) by {
        if k < a.len() - 1 {
            assert(m.id_linked(a[k], a[k + 1]));
        }
    }
}

/// The beginning of a journey is a journey.
pub proof fn lemma_route_prefix(m: Topology, r: Seq<u32>, n: int)
    requires
        m.is_route(r),
        0 <= n <= r.len(),
    ensures
        m.is_route(r.take(n)),
{
    let p = r.take(n);
    assert forall|k: int| 0 <= k < p.len() - 1 implies m.id_linked(#[trigger] p[k], p[k + 1]) by {
        assert(m.id_linked(r[k], r[k + 1]));
    }
}

/// A journey in a restriction of a graph is a journey in the graph.
pub proof fn lemma_restricts_route(sub: Topology, whole: Topology, chosen: Set<u32>, r: Seq<u32>)
    requires
        restricts(sub, whole, chosen),
        sub.is_route(r),
    ensures
        whole.is_route(r),
{
    assert forall|k: int| 0 <= k < r.len() - 1 implies whole.id_linked(
        #[trigger] r[k],
        r[k + 1],
    ) by {
        assert(sub.id_linked(r[k], r[k + 1]));
    }
}

/// Two systems joined by a jump are systems of the graph.
pub proof fn lemma_linked_has_ids(m: Topology, x: u32, y: u32)
    requires
        m.id_linked(x, y),
    ensures
        m.has_id(x),
        m.has_id(y),
{
    let (i, j) = choose|i: int, j: int|
        0 <= i < m.size() && 0 <= j < m.size() && m.id_at(i) == x && m.id_at(j) == y
            && #[trigger] m.linked(i, j);
    assert(m.id_at(i) == x);
    assert(m.id_at(j) == y);
}

/// A journey from `start` never leaves a set of systems that holds `start`
/// and is closed under jumps.
pub proof fn lemma_closed_holds(m: Topology, start: u32, route: Seq<u32>, r: Seq<u32>, k: int)
    requires
        m.closed_under_jumps(start, route),
        m.is_route(r),
        r.len() > 0,
        r[0] == start,
        0 <= k < r.len(),
    ensures
        r[k] == start || route.contains(r[k]),
    decreases k,
{
    if k > 0 {
        lemma_closed_holds(m, start, route, r, k - 1);
        assert(m.id_linked(r[k - 1], r[k]));
    }
}

/// A round trip from `start` passes exactly the systems that can be reached
/// from `start`.
pub proof fn lemma_tour_covers(m: Topology, start: u32, route: Seq<u32>)
    requires
        m.has_id(start),
        m.is_tour(start, route),
    ensures
        forall|x: u32| (x == start || route.contains(x)) <==> #[trigger] m.id_reachable(start, x),
{
    let full = seq![start] + route;
    assert forall|x: u32| (x == start || route.contains(x)) implies #[trigger] m.id_reachable(
        start,
        x,
    ) by {
        if x == start {
            let r = seq![start];
            assert(m.is_route(r));
            assert(r[0] == start && r.last() == x);
        } else {
            let k = choose|k: int| 0 <= k < route.len() && route[k] == x;
            lemma_route_prefix(m, full, k + 2);
            let r = full.take(k + 2);
            assert(r[0] == start && r.last() == x);
        }
    }
    assert forall|x: u32| #[trigger] m.id_reachable(start, x) implies (x == start
        || route.contains(x)) by {
        let r = choose|r: Seq<u32>|
            r.len() > 0 && r[0] == start && r.last() == x && m.has_id(start)
                && #[trigger] m.is_route(r);
        lemma_closed_holds(m, start, route, r, r.len() - 1);
    }
}

/// A walk read backwards is a walk.
pub proof fn lemma_reverse_walk(m: Topology, w: Seq<usize>)
    requires
        m.is_walk(w),
    ensures
        m.is_walk(w.reverse()),
        w.reverse()[0] == w.last(),
        w.reverse().last() == w[0],
{
    let r = w.reverse();
    assert forall|k: int| 0 <= k < r.len() - 1 implies m.linked(
        (#[trigger] r[k]) as int,
        r[k + 1] as int,
    ) by {
        let j = w.len() - 2 - k;
        assert(m.linked(w[j] as int, w[j + 1] as int));
        let e = choose|e: int|
            0 <= e < m.jumps.len() && (((#[trigger] m.jumps[e]).0 == w[j] && m.jumps[e].1 == w[j
                + 1]) || (m.jumps[e].0 == w[j + 1] && m.jumps[e].1 == w[j]));
        assert(r[k] == w[j + 1] && r[k + 1] == w[j]);
    }
}

/// An element of a sequence with one more element is an old element or the
/// new one.
pub proof fn lemma_contains_push<T>(a: Seq<T>, u: T, x: T)
    ensures
        a.push(u).contains(x) == (a.contains(x) || x == u),
{
    lemma_contains_add(a, seq![u], x);
    assert(a.push(u) =~= a + seq![u]);
    if x == u {
        assert(seq![u][0] == x);
    }
}

/// Every system on a journey that leaves `start` for somewhere is a system
/// of the graph.
pub proof fn lemma_route_has_ids(m: Topology, start: u32, route: Seq<u32>, k: int)
    requires
        m.is_route(seq![start] + route),
        0 <= k < route.len(),
    ensures
        m.has_id(route[k]),
        m.id_linked((seq![start] + route)[k], route[k]),
{
    let full = seq![start] + route;
    assert(m.id_linked(full[k], full[k + 1]));
    lemma_linked_has_ids(m, full[k], full[k + 1]);
}

/// A journey read backwards is a journey.
pub proof fn lemma_route_reverse(m: Topology, r: Seq<u32>)
    requires
        m.is_route(r),
    ensures
        m.is_route(r.reverse()),
{
    let back = r.reverse();
    assert forall|k: int| 0 <= k < back.len() - 1 implies m.id_linked(
        #[trigger] back[k],
        back[k + 1],
    ) by {
        let j = r.len() - 2 - k;
        assert(m.id_linked(r[j], r[j + 1]));
        let (a, b) = choose|a: int, b: int|
            0 <= a < m.size() && 0 <= b < m.size() && m.id_at(a) == r[j] && m.id_at(b) == r[j + 1]
                && #[trigger] m.linked(a, b);
        assert(m.linked(b, a)) by {
            let e = choose|e: int|
                0 <= e < m.jumps.len() && (((#[trigger] m.jumps[e]).0 == a && m.jumps[e].1 == b)
                    || (m.jumps[e].0 == b && m.jumps[e].1 == a));
        }
        assert(back[k] == r[j + 1] && back[k + 1] == r[j]);
    }
}

/// Where a journey leads from one system to a second, one leads back.
pub proof fn lemma_reachable_back(m: Topology, x: u32, y: u32)
    requires
        m.id_reachable(x, y),
    ensures
        m.id_reachable(y, x),
{
    let r = choose|r: Seq<u32>|
        r.len() > 0 && r[0] == x && r.last() == y && m.has_id(x) && #[trigger] m.is_route(r);
    lemma_route_reverse(m, r);
    let back = r.reverse();
    assert(back[0] == y && back.last() == x);
    if r.len() >= 2 {
        assert(m.id_linked(r[r.len() - 2], r[r.len() - 1]));
        lemma_linked_has_ids(m, r[r.len() - 2], y);
    }
}

/// Where a journey leads from one system to a second and from there to a
/// third, one leads from the first to the third.
pub proof fn lemma_reachable_on(m: Topology, x: u32, y: u32, z: u32)
    requires
        m.id_reachable(x, y),
        m.id_reachable(y, z),
    ensures
        m.id_reachable(x, z),
{
    let first = choose|r: Seq<u32>|
        r.len() > 0 && r[0] == x && r.last() == y && m.has_id(x) && #[trigger] m.is_route(r);
    let second = choose|r: Seq<u32>|
        r.len() > 0 && r[0] == y && r.last() == z && m.has_id(y) && #[trigger] m.is_route(r);
    lemma_route_join(m, first, second);
    let whole = first + second.skip(1);
    assert(whole[0] == x);
    assert(whole.last() == z);
}

} // verus!
