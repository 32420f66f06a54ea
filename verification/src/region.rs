//! Regions: what can be reached from a system, and whether a graph holds a
//! cycle.

use vstd::prelude::*;
use std::collections::HashSet;
use petgraph::algo::is_cyclic_undirected;
use petgraph::graph::Graph;
use petgraph::graph::NodeIndex;
use petgraph::visit::Dfs;
use petgraph::visit::Walker;
use petgraph::Undirected;
use crate::journey::{lemma_reachable_back, lemma_reachable_on, lemma_walk_route};
use crate::restriction::{
    lemma_induced_at, lemma_induced_origin, lemma_induced_walk, lemma_induced_well_formed,
    renumbered,
};
use crate::store::{answers, filter_nodes, graph_nodes, node_count, system_at, topology};
use crate::system::System;
use crate::topology::Topology;

verus! {

impl Topology {
    /// The same systems with only the first `k` jumps.
    pub open spec fn before(self, k: int) -> Topology {
        Topology { systems: self.systems, jumps: self.jumps.take(k) }
    }

    /// Some jump joins two positions that the jumps before it connect
    /// already: the graph, read without directions, holds a cycle.
    pub open spec fn cyclic(self) -> bool {
        exists|k: int|
            0 <= k < self.jumps.len() && #[trigger] self.before(k).reachable(
                self.jumps[k].0 as int,
                self.jumps[k].1 as int,
            )
    }

    /// The marks of the positions that a walk from `start` reaches.
    pub open spec fn region(self, start: int) -> Seq<bool> {
        Seq::new(self.size(), |i: int| self.reachable(start, i))
    }
}

/// The beginning of a walk is a walk.
pub proof fn lemma_walk_prefix(m: Topology, w: Seq<usize>, n: int)
    requires
        m.is_walk(w),
        0 < n <= w.len(),
    ensures
        m.is_walk(w.take(n)),
{
    let p = w.take(n);
    assert forall|k: int| 0 <= k < p.len() - 1 implies m.linked(
        (#[trigger] p[k]) as int,
        p[k + 1] as int,
    ) by {
        assert(m.linked(w[k] as int, w[k + 1] as int));
    }
}

/// In the region of `start`, a journey leads from the system at `start` to
/// every system.
pub proof fn lemma_region_reached(m: Topology, start: int, k: int)
    requires
        m.proper(),
        0 <= start < m.size(),
        0 <= k < m.induced(m.region(start)).size(),
    ensures
        m.induced(m.region(start)).id_reachable(
            m.id_at(start),
            m.induced(m.region(start)).id_at(k),
        ),
{
    let keep = m.region(start);
    let sub = m.induced(keep);
    let i = lemma_induced_origin(m, keep, k);
    let w = choose|w: Seq<usize>| #[trigger] m.is_walk(w) && w[0] == start && w.last() == i;
    assert forall|j: int| 0 <= j < w.len() implies keep[(#[trigger] w[j]) as int] by {
        lemma_walk_prefix(m, w, j + 1);
        assert(w.take(j + 1)[0] == start && w.take(j + 1).last() == w[j]);
    }
    lemma_induced_walk(m, keep, w);
    lemma_walk_route(sub, renumbered(keep, w));
    let r = m.ids_along(w);
    assert(r[0] == m.id_at(start) && r.last() == sub.id_at(k));
    assert(keep[w[0] as int]);
    lemma_induced_at(m, keep, start);
}

/// The region of `start` is a connected graph that holds the system at
/// `start`; it is proper where the whole graph is.
pub proof fn lemma_region_connected(m: Topology, start: int)
    requires
        m.proper(),
        0 <= start < m.size(),
    ensures
        m.induced(m.region(start)).proper(),
        m.induced(m.region(start)).has_id(m.id_at(start)),
        m.induced(m.region(start)).connected(),
{
    let keep = m.region(start);
    let sub = m.induced(keep);
    let home = m.id_at(start);
    lemma_induced_well_formed(m, keep);
    assert(keep[start]) by {
        let w = seq![start as usize];
        assert(m.is_walk(w) && w[0] == start && w.last() == start);
    }
    lemma_induced_at(m, keep, start);
    assert(sub.distinct_ids()) by {
        assert forall|a: int, b: int|
            0 <= a < sub.size() && 0 <= b < sub.size() && sub.id_at(a) == sub.id_at(
                b,
            ) implies a == b by {
            let i = lemma_induced_origin(m, keep, a);
            let j = lemma_induced_origin(m, keep, b);
        }
    }
    assert forall|x: u32, y: u32| sub.has_id(x) && sub.has_id(y) implies sub.id_reachable(
        x,
        y,
    ) by {
        let a = choose|a: int| 0 <= a < sub.size() && #[trigger] sub.id_at(a) == x;
        let b = choose|b: int| 0 <= b < sub.size() && #[trigger] sub.id_at(b) == y;
        lemma_region_reached(m, start, a);
        lemma_region_reached(m, start, b);
        lemma_reachable_back(sub, home, x);
        lemma_reachable_on(sub, x, home, y);
    }
}

/// `petgraph::visit::Dfs` from `start`, run to its end: the positions that
/// a walk from `start` reaches, `start` among them.
#[verifier::external_body]
fn reachable_positions(graph: &Graph<System, (), Undirected>, start: usize) -> (found: Vec<usize>)
    requires
        start < graph_nodes(*graph).len(),
    ensures
        forall|i: usize|
            found@.contains(i) == (i < graph_nodes(*graph).len() && topology(graph).reachable(
                start as int,
                i as int,
            )),
{
    Dfs::new(graph, NodeIndex::new(start)).iter(graph).map(|n| n.index()).collect()
}

/// `petgraph::algo::is_cyclic_undirected`: whether some edge joins two
/// nodes that the edges before it connect already.
#[verifier::external_body]
fn cyclic_undirected(graph: &Graph<System, (), Undirected>) -> (cyclic: bool)
    ensures
        cyclic == topology(graph).cyclic(),
{
    is_cyclic_undirected(graph)
}

/// Whether the graph holds a cycle.
pub fn has_cycle(graph: &Graph<System, (), Undirected>) -> (cyclic: bool)
    ensures
        cyclic == topology(graph).cyclic(),
{
    cyclic_undirected(graph)
}

/// The part of the graph that can be reached from the position `start`:
/// the subgraph induced by the positions that a walk from `start` reaches.
pub fn connected_component(graph: &Graph<System, (), Undirected>, start: usize) -> (part: Graph<
    System,
    (),
    Undirected,
>)
    requires
        start < graph_nodes(*graph).len(),
    ensures
        topology(&part) == topology(graph).induced(topology(graph).region(start as int)),
        topology(&part).well_formed(),
        topology(graph).proper() ==> topology(&part).proper() && topology(&part).connected()
            && topology(&part).has_id(graph_nodes(*graph)[start as int].id),
{
    broadcast use vstd::std_specs::hash::group_hash_axioms;

    let n = node_count(graph);
    let found = reachable_positions(graph, start);
    let mut nodes: HashSet<usize> = HashSet::new();
    let mut k: usize = 0;
    while k < found.len()
        invariant
            k <= found.len(),
            forall|i: usize| nodes@.contains(i) <==> found@.take(k as int).contains(i),
        decreases found.len() - k,
    {
        nodes.insert(found[k]);
        proof {
            let grown = found@.take(k + 1);
            assert(grown =~= found@.take(k as int).push(found[k as int]));
            assert forall|i: usize| nodes@.contains(i) <==> grown.contains(i) by {
                crate::journey::lemma_contains_push(found@.take(k as int), found[k as int], i);
            }
        }
        k += 1;
    }
    assert(found@.take(found.len() as int) =~= found@);
    let reached = |i: usize, s: &System| -> (b: bool)
        ensures
            b == nodes@.contains(i),
        { nodes.contains(&i) };
    let part = filter_nodes(graph, reached);
    proof {
        let m = topology(graph);
        let keep = choose|keep: Seq<bool>| #[trigger]
            answers(reached, m, keep) && topology(&part) == m.induced(keep);
        assert(keep =~= m.region(start as int));
        if m.proper() {
            lemma_region_connected(m, start as int);
        }
    }
    part
}

/// The position of the first system with the name `name`.
pub fn find_by_name(graph: &Graph<System, (), Undirected>, name: &String) -> (found: Option<usize>)
    ensures
        match found {
            Some(i) => i < graph_nodes(*graph).len() && graph_nodes(*graph)[i as int].name@
                == name@ && forall|k: int| 0 <= k < i ==> graph_nodes(*graph)[k].name@ != name@,
            None => forall|k: int|
                0 <= k < graph_nodes(*graph).len() ==> graph_nodes(*graph)[k].name@ != name@,
        },
{
    let n = node_count(graph);
    let mut i: usize = 0;
    while i < n
        invariant
            n == graph_nodes(*graph).len(),
            i <= n,
            forall|k: int| 0 <= k < i ==> graph_nodes(*graph)[k].name@ != name@,
        decreases n - i,
    {
        if system_at(graph, i).name == *name {
            return Some(i);
        }
        i += 1;
    }
    None
}

} // verus!
