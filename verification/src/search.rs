//! Path search: the longest simple path that leaves a position.

use vstd::prelude::*;
use petgraph::algo::all_simple_paths;
use petgraph::graph::Graph;
use petgraph::graph::NodeIndex;
use petgraph::Undirected;
use rayon::iter::ParallelBridge;
use rayon::iter::ParallelIterator;
use crate::store::{graph_nodes, node_count, topology};
use crate::system::System;
use crate::topology::Topology;

verus! {

impl Topology {
    /// `p` is a simple path that leaves `anchor` for some other position.
    pub open spec fn is_path_from(self, anchor: int, p: Seq<usize>) -> bool {
        p.len() >= 2 && self.is_simple_path(anchor, p.last() as int, p)
    }

    /// `r` is what a search from `anchor` to `target` may report: nothing
    /// where the two are one position or no simple path joins them, else a
    /// simple path between them that no other such path exceeds in length.
    pub open spec fn is_longest_to(self, anchor: int, target: int, r: Option<Seq<usize>>) -> bool {
        match r {
            None => anchor == target || forall|q: Seq<usize>|
                !#[trigger] self.is_simple_path(anchor, target, q),
            Some(p) => anchor != target && self.is_simple_path(anchor, target, p) && forall|
                q: Seq<usize>,
            | #[trigger] self.is_simple_path(anchor, target, q) ==> q.len() <= p.len(),
        }
    }

    /// `r` is what a search from `anchor` may report: nothing where no
    /// simple path leaves `anchor`, else a simple path from `anchor` that no
    /// other exceeds in length.
    pub open spec fn is_longest_from(self, anchor: int, r: Option<Seq<usize>>) -> bool {
        match r {
            None => forall|q: Seq<usize>| !#[trigger] self.is_path_from(anchor, q),
            Some(p) => self.is_path_from(anchor, p) && forall|q: Seq<usize>| #[trigger]
                self.is_path_from(anchor, q) ==> q.len() <= p.len(),
        }
    }
}

/// The positions of a reported path, with nothing reported as nothing.
pub open spec fn path_view(found: Option<Vec<usize>>) -> Option<Seq<usize>> {
    match found {
        Some(p) => Some(p@),
        None => None,
    }
}

/// `petgraph::algo::all_simple_paths` without a bound on the number of
/// intermediate nodes, collected: every item is a simple path from `from`
/// to `to`, and every simple path from `from` to `to` is among the items.
/// The order of the items follows the graph's neighbour order, which is
/// left open.
#[verifier::external_body]
fn simple_paths(graph: &Graph<System, (), Undirected>, from: usize, to: usize) -> (paths: Vec<
    Vec<usize>,
>)
    requires
        from < graph_nodes(*graph).len(),
        to < graph_nodes(*graph).len(),
        from != to,
    ensures
        forall|k: int|
            0 <= k < paths.len() ==> topology(graph).is_simple_path(
                from as int,
                to as int,
                #[trigger] paths[k]@,
            ),
        forall|p: Seq<usize>| #[trigger]
            topology(graph).is_simple_path(from as int, to as int, p) ==> exists|k: int|
                0 <= k < paths.len() && #[trigger] paths[k]@ == p,
{
    all_simple_paths::<Vec<NodeIndex>, _>(graph, NodeIndex::new(from), NodeIndex::new(to), 0, None)
        .map(|p| p.into_iter().map(|n| n.index()).collect())
        .collect()
}

/// The last of the longest among `paths`.
pub fn pick_longest(paths: Vec<Vec<usize>>) -> (best: Option<Vec<usize>>)
    ensures
        match best {
            None => paths.len() == 0,
            Some(p) => exists|k: int|
                0 <= k < paths.len() && #[trigger] paths[k] == p && (forall|j: int|
                    0 <= j < paths.len() ==> (#[trigger] paths[j]).len() <= p.len()) && (forall|
                    j: int,
                | k < j < paths.len() ==> (#[trigger] paths[j]).len() < p.len()),
        },
{
    let mut paths = paths;
    let ghost all = paths@;
    if paths.len() == 0 {
        return None;
    }
    let mut at: usize = 0;
    let mut i: usize = 1;
    while i < paths.len()
        invariant
            paths@ == all,
            1 <= i <= paths.len(),
            at < i,
            forall|j: int| 0 <= j < i ==> (#[trigger] paths[j]).len() <= paths[at as int].len(),
            forall|j: int| at < j < i ==> (#[trigger] paths[j]).len() < paths[at as int].len(),
        decreases paths.len() - i,
    {
        if paths[i].len() >= paths[at].len() {
            at = i;
        }
        i += 1;
    }
    let best = paths.swap_remove(at);
    assert(all[at as int] == best);
    Some(best)
}

/// The longest simple path from `anchor` to `target`, the last found where
/// several are longest; nothing where the two are one position, where one
/// of them is no position of the graph, or where no path joins them.
pub fn longest_path_to(graph: &Graph<System, (), Undirected>, anchor: usize, target: usize) -> (best:
    Option<Vec<usize>>)
    ensures
        topology(graph).is_longest_to(
            anchor as int,
            target as int,
            path_view(best),
        ),
{
    let n = node_count(graph);
    if anchor >= n || target >= n || anchor == target {
        proof {
            assert forall|q: Seq<usize>|
                anchor != target implies !#[trigger] topology(graph).is_simple_path(
                anchor as int,
                target as int,
                q,
            ) by {
                if topology(graph).is_simple_path(anchor as int, target as int, q) {
                    assert(q[0] < n && q[q.len() - 1] < n);
                }
            }
        }
        return None;
    }
    let paths = simple_paths(graph, anchor, target);
    let best = pick_longest(paths);
    proof {
        let m = topology(graph);
        match path_view(best) {
            None => {
                assert forall|q: Seq<usize>|
                    !#[trigger] m.is_simple_path(anchor as int, target as int, q) by {
                    if m.is_simple_path(anchor as int, target as int, q) {
                        let k = choose|k: int| 0 <= k < paths.len() && #[trigger] paths[k]@ == q;
                    }
                }
            },
            Some(p) => {
                assert forall|q: Seq<usize>| #[trigger]
                    m.is_simple_path(anchor as int, target as int, q) implies q.len()
                    <= p.len() by {
                    let k = choose|k: int| 0 <= k < paths.len() && #[trigger] paths[k]@ == q;
                    assert(paths[k].len() <= p.len());
                    assert(paths[k]@.len() == q.len());
                }
            },
        }
    }
    best
}

/// The number of positions on a path.
fn path_length(path: &Vec<usize>) -> (length: usize)
    ensures
        length == path.len(),
{
    path.len()
}

/// The searches of `longest_path_to`, one for every position of the graph,
/// handed out to rayon's worker threads by `par_bridge` and `filter_map`,
/// and reduced by `max_by_key` on `path_length`. The result is one of the
/// paths that the searches reported, no reported path is longer, and
/// nothing comes back only where every search reported nothing. Which of
/// several longest paths comes back is not determined.
#[verifier::external_body]
fn search_targets(graph: &Graph<System, (), Undirected>, anchor: usize) -> (best: Option<
    Vec<usize>,
>)
    ensures
        match best {
            Some(p) => exists|t: int|
                0 <= t < graph_nodes(*graph).len() && #[trigger] topology(graph).is_longest_to(
                    anchor as int,
                    t,
                    Some(p@),
                ),
            None => forall|t: int|
                0 <= t < graph_nodes(*graph).len() ==> #[trigger] topology(graph).is_longest_to(
                    anchor as int,
                    t,
                    None,
                ),
        },
        forall|t: int, q: Seq<usize>|
            0 <= t < graph_nodes(*graph).len() && #[trigger] topology(graph).is_longest_to(
                anchor as int,
                t,
                Some(q),
            ) ==> best is Some && q.len() <= best->0.len(),
{
    graph.node_indices().par_bridge().filter_map(
        |t| longest_path_to(graph, anchor, t.index()),
    ).max_by_key(|p| path_length(p))
}

/// The longest simple path that leaves the position `anchor`, or nothing
/// where `anchor` is no position of the graph or has no neighbour but
/// itself. Where several paths are longest, which of them comes back is not
/// determined.
pub fn longest_simple_path(graph: &Graph<System, (), Undirected>, anchor: usize) -> (best: Option<
    Vec<usize>,
>)
    ensures
        topology(graph).is_longest_from(anchor as int, path_view(best)),
{
    let best = search_targets(graph, anchor);
    proof {
        let m = topology(graph);
        let a = anchor as int;
        match path_view(best) {
            None => {
                assert forall|q: Seq<usize>| !#[trigger] m.is_path_from(a, q) by {
                    if m.is_path_from(a, q) {
                        let t = q.last() as int;
                        assert(q[q.len() - 1] < m.size());
                        assert(m.is_longest_to(a, t, None));
                        assert(q[0] != q[q.len() - 1]);
                    }
                }
            },
            Some(p) => {
                let t = choose|t: int|
                    0 <= t < m.size() && #[trigger] m.is_longest_to(a, t, Some(p));
                assert(p.len() >= 2) by {
                    if p.len() < 2 {
                        assert(p[0] == p.last());
                    }
                }
                assert forall|q: Seq<usize>| #[trigger] m.is_path_from(a, q) implies q.len()
                    <= p.len() by {
                    let u = q.last() as int;
                    assert(q[q.len() - 1] < m.size());
                    assert(q[0] != q[q.len() - 1]);
                    lemma_longest_to_exists(m, a, u, q);
                    let r = choose|r: Seq<usize>| #[trigger] m.is_longest_to(a, u, Some(r));
                    assert(q.len() <= r.len());
                }
            },
        }
    }
    best
}

/// Where a simple path joins two different positions, one of greatest
/// length does.
pub proof fn lemma_longest_to_exists(m: Topology, a: int, t: int, q: Seq<usize>)
    requires
        a != t,
        m.is_simple_path(a, t, q),
    ensures
        exists|r: Seq<usize>| #[trigger] m.is_longest_to(a, t, Some(r)),
    decreases m.size() + 1 - q.len(),
{
    lemma_simple_path_length(m, q);
    if m.is_longest_to(a, t, Some(q)) {
    } else {
        let longer = choose|r: Seq<usize>| #[trigger]
            m.is_simple_path(a, t, r) && r.len() > q.len();
        lemma_simple_path_length(m, longer);
        lemma_longest_to_exists(m, a, t, longer);
    }
}

/// A walk without repetition is no longer than the graph has positions.
pub proof fn lemma_simple_path_length(m: Topology, p: Seq<usize>)
    requires
        m.is_walk(p),
        p.no_duplicates(),
    ensures
        p.len() <= m.size(),
{
    let domain = Set::new(|x: usize| x < m.size());
    let whole = Set::new(|x: int| 0 <= x < m.size());
    vstd::set_lib::lemma_int_range(0, m.size() as int);
    assert(whole =~= vstd::set_lib::set_int_range(0, m.size() as int));
    p.unique_seq_to_set();
    let image = p.to_set().map(|x: usize| x as int);
    assert(image.subset_of(whole)) by {
        assert forall|y: int| image.contains(y) implies whole.contains(y) by {
            let x = choose|x: usize| p.to_set().contains(x) && y == x as int;
            let k = choose|k: int| 0 <= k < p.len() && p[k] == x;
            assert(p[k] < m.size());
        }
    }
    vstd::set_lib::lemma_len_subset(image, whole);
    vstd::set_lib::lemma_map_size(p.to_set(), image, |x: usize| x as int);
}

} // verus!
