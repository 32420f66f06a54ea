//! The graph store: jump graphs as `petgraph` holds them, and the subgraph
//! induced by a choice of systems.

use vstd::prelude::*;
use std::collections::HashSet;
use petgraph::graph::Graph;
use petgraph::graph::NodeIndex;
use petgraph::Undirected;
use crate::system::System;
use crate::topology::Topology;

verus! {

/// `petgraph::graph::Graph`, as a type whose values are known only through
/// `graph_nodes` and `graph_edges`.
#[verifier::external_type_specification]
#[verifier::external_body]
#[verifier::reject_recursive_types(N)]
#[verifier::reject_recursive_types(E)]
#[verifier::reject_recursive_types(Ty)]
#[verifier::reject_recursive_types(Ix)]
pub struct ExGraph<N, E, Ty, Ix>(Graph<N, E, Ty, Ix>);

/// `petgraph::Undirected`, the marker of graphs whose edges have no
/// direction.
#[verifier::external_type_specification]
#[verifier::external_body]
pub struct ExUndirected(Undirected);

/// The systems that a graph holds, in node order.
pub uninterp spec fn graph_nodes(g: Graph<System, (), Undirected>) -> Seq<System>;

/// The endpoints of the jumps that a graph holds, in edge order.
pub uninterp spec fn graph_edges(g: Graph<System, (), Undirected>) -> Seq<(usize, usize)>;

/// What a graph holds.
pub open spec fn topology(g: &Graph<System, (), Undirected>) -> Topology {
    Topology { systems: graph_nodes(*g), jumps: graph_edges(*g) }
}

/// `Graph::new_undirected`: a graph without nodes or edges.
#[verifier::external_body]
pub(crate) fn empty_graph() -> (g: Graph<System, (), Undirected>)
    ensures
        graph_nodes(g) == Seq::<System>::empty(),
        graph_edges(g) == Seq::<(usize, usize)>::empty(),
{
    Graph::new_undirected()
}

/// `Graph::node_count`: the number of nodes. It is the length of the node
/// list, and every edge of a graph joins two of its nodes.
#[verifier::external_body]
pub(crate) fn node_count(g: &Graph<System, (), Undirected>) -> (n: usize)
    ensures
        n == graph_nodes(*g).len(),
        forall|k: int|
            0 <= k < graph_edges(*g).len() ==> (#[trigger] graph_edges(*g)[k]).0 < n
                && graph_edges(*g)[k].1 < n,
{
    g.node_count()
}

/// Indexing a graph by a node position: the system stored there.
#[verifier::external_body]
pub(crate) fn system_at(g: &Graph<System, (), Undirected>, i: usize) -> (s: &System)
    requires
        i < graph_nodes(*g).len(),
    ensures
        *s == graph_nodes(*g)[i as int],
{
    &g[NodeIndex::new(i)]
}

/// `Graph::add_node`: appends a node and returns its position; the edges
/// stay as they are.
#[verifier::external_body]
pub(crate) fn add_system(g: &mut Graph<System, (), Undirected>, s: System) -> (i: usize)
    requires
        graph_nodes(*old(g)).len() < u32::MAX,
    ensures
        i == graph_nodes(*old(g)).len(),
        graph_nodes(*final(g)) == graph_nodes(*old(g)).push(s),
        graph_edges(*final(g)) == graph_edges(*old(g)),
{
    g.add_node(s).index()
}

/// `Graph::add_edge`: appends an edge between two existing nodes; the nodes
/// stay as they are.
#[verifier::external_body]
pub(crate) fn add_jump(g: &mut Graph<System, (), Undirected>, a: usize, b: usize)
    requires
        a < graph_nodes(*old(g)).len(),
        b < graph_nodes(*old(g)).len(),
        graph_edges(*old(g)).len() < u32::MAX,
    ensures
        graph_nodes(*final(g)) == graph_nodes(*old(g)),
        graph_edges(*final(g)) == graph_edges(*old(g)).push((a, b)),
{
    g.add_edge(NodeIndex::new(a), NodeIndex::new(b), ());
}

/// `Graph::clone`: a graph with the same nodes and edges.
#[verifier::external_body]
pub(crate) fn copy_graph(g: &Graph<System, (), Undirected>) -> (copy: Graph<System, (), Undirected>)
    ensures
        graph_nodes(copy) == graph_nodes(*g),
        graph_edges(copy) == graph_edges(*g),
{
    g.clone()
}

/// The system at position `i` if `keep` marks it.
pub(crate) fn retained(keep: &Vec<bool>, i: usize, s: &System) -> (r: Option<System>)
    requires
        i < keep.len(),
    ensures
        r == (if keep[i as int] {
            Some(*s)
        } else {
            None
        }),
{
    if keep[i] {
        Some(System { id: s.id, name: s.name.clone() })
    } else {
        None
    }
}

/// `Graph::filter_map`, keeping every edge weight: the nodes that the node
/// closure maps to `Some`, in their old order, and the edges whose two ends
/// both stay, in their old order, with their ends renumbered.
#[verifier::external_body]
pub(crate) fn induced_by(g: &Graph<System, (), Undirected>, keep: &Vec<bool>) -> (sub: Graph<
    System,
    (),
    Undirected,
>)
    requires
        keep.len() == graph_nodes(*g).len(),
    ensures
        topology(&sub) == topology(g).induced(keep@),
{
    g.filter_map(|i, s| retained(keep, i.index(), s), |_, e| Some(*e))
}

/// `keep` holds, for every position, an answer of `node_map` on the system
/// there; the positions are machine numbers.
pub open spec fn answers<F: Fn(usize, &System) -> bool>(
    node_map: F,
    m: Topology,
    keep: Seq<bool>,
) -> bool {
    &&& keep.len() == m.size()
    &&& m.size() <= usize::MAX
    &&& forall|i: int|
        0 <= i < m.size() ==> call_ensures(node_map, (i as usize, &m.systems[i]), #[trigger] keep[i])
}

/// The subgraph induced by the systems that `node_map` accepts: those
/// systems and every jump between two of them. Positions are not stable:
/// a system that stays takes the number of accepted systems before it.
pub fn filter_nodes<F: Fn(usize, &System) -> bool>(
    graph: &Graph<System, (), Undirected>,
    node_map: F,
) -> (sub: Graph<System, (), Undirected>)
    requires
        forall|i: int|
            0 <= i < graph_nodes(*graph).len() ==> call_requires(
                node_map,
                (i as usize, &#[trigger] graph_nodes(*graph)[i]),
            ),
    ensures
        exists|keep: Seq<bool>| #[trigger]
            answers(node_map, topology(graph), keep) && topology(&sub) == topology(graph).induced(
                keep,
            ),
        topology(&sub).well_formed(),
{
    let n = node_count(graph);
    let mut keep: Vec<bool> = Vec::new();
    let mut i: usize = 0;
    while i < n
        invariant
            n == graph_nodes(*graph).len(),
            i <= n,
            keep.len() == i,
            forall|k: int|
                0 <= k < graph_nodes(*graph).len() ==> call_requires(
                    node_map,
                    (k as usize, &#[trigger] graph_nodes(*graph)[k]),
                ),
            forall|k: int|
                0 <= k < i ==> call_ensures(
                    node_map,
                    (k as usize, &graph_nodes(*graph)[k]),
                    #[trigger] keep[k],
                ),
        decreases n - i,
    {
        assert(call_requires(node_map, (i, &graph_nodes(*graph)[i as int])));
        let b = node_map(i, system_at(graph, i));
        keep.push(b);
        i += 1;
    }
    let sub = induced_by(graph, &keep);
    proof {
        assert(answers(node_map, topology(graph), keep@));
        assert(topology(graph).well_formed());
        crate::restriction::lemma_induced_well_formed(topology(graph), keep@);
    }
    sub
}

/// The position of the first system that carries `id`.
pub fn find_system(graph: &Graph<System, (), Undirected>, id: u32) -> (found: Option<usize>)
    ensures
        match found {
            Some(i) => i < graph_nodes(*graph).len() && graph_nodes(*graph)[i as int].id == id
                && forall|k: int| 0 <= k < i ==> graph_nodes(*graph)[k].id != id,
            None => !topology(graph).has_id(id),
        },
{
    let n = node_count(graph);
    let mut i: usize = 0;
    while i < n
        invariant
            n == graph_nodes(*graph).len(),
            i <= n,
            forall|k: int| 0 <= k < i ==> graph_nodes(*graph)[k].id != id,
        decreases n - i,
    {
        if system_at(graph, i).id == id {
            return Some(i);
        }
        i += 1;
    }
    None
}

/// Whether the graph is one that the planner works on. Every graph is
/// well formed and fits the machine, so this is to ask whether no two
/// systems carry one identifier.
pub fn is_proper(graph: &Graph<System, (), Undirected>) -> (proper: bool)
    ensures
        proper == topology(graph).proper(),
{
    broadcast use vstd::std_specs::hash::group_hash_axioms;

    let n = node_count(graph);
    let mut seen: HashSet<u32> = HashSet::new();
    let mut i: usize = 0;
    while i < n
        invariant
            n == graph_nodes(*graph).len(),
            i <= n,
            forall|x: u32|
                seen@.contains(x) <==> exists|k: int|
                    0 <= k < i && #[trigger] graph_nodes(*graph)[k].id == x,
            forall|j: int, k: int|
                0 <= j < i && 0 <= k < i && graph_nodes(*graph)[j].id == graph_nodes(*graph)[k].id
                    ==> j == k,
        decreases n - i,
    {
        let id = system_at(graph, i).id;
        if seen.contains(&id) {
            proof {
                let k = choose|k: int| 0 <= k < i && #[trigger] graph_nodes(*graph)[k].id == id;
                assert(topology(graph).id_at(k) == topology(graph).id_at(i as int));
            }
            return false;
        }
        seen.insert(id);
        i += 1;
    }
    true
}

} // verus!
