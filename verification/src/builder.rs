//! Building a jump graph from systems and declared jumps.

use vstd::prelude::*;
use std::collections::HashMap;
use std::collections::HashSet;
use petgraph::graph::Graph;
use petgraph::Undirected;
use crate::pairs::sort_tuple;
use crate::store::{add_jump, add_system, empty_graph, graph_edges, graph_nodes, topology};
use crate::system::System;

verus! {

/// Why a graph could not be built.
#[derive(Clone, Copy, Debug, PartialEq, Eq, Structural)]
pub enum BuildError {
    /// A jump was declared from or to an identifier that no system carries.
    UnknownSystem(u32),
}

/// The position of the last system that carries `id`, or `-1` where none
/// does.
pub open spec fn position_of(systems: Seq<System>, id: u32) -> int
    decreases systems.len(),
{
    if systems.len() == 0 {
        -1
    } else if systems.last().id == id {
        systems.len() - 1
    } else {
        position_of(systems.drop_last(), id)
    }
}

/// Some system carries `id`.
pub open spec fn knows(systems: Seq<System>, id: u32) -> bool {
    position_of(systems, id) >= 0
}

/// A declared jump with its ends in ascending order.
pub open spec fn pair_key(p: (u32, u32)) -> (u32, u32) {
    if p.0 < p.1 {
        p
    } else {
        (p.1, p.0)
    }
}

/// No declaration before the `k`-th declares the same jump, in either
/// direction.
pub open spec fn first_mention(pairs: Seq<(u32, u32)>, k: int) -> bool {
    forall|j: int| 0 <= j < k ==> pair_key(#[trigger] pairs[j]) != pair_key(pairs[k])
}

/// The jumps that `pairs` declares between `systems`: one for each
/// declaration that is the first of its jump, in the order of the
/// declarations, from the position of its first identifier to the position
/// of its second.
pub open spec fn declared_jumps(systems: Seq<System>, pairs: Seq<(u32, u32)>) -> Seq<
    (usize, usize),
>
    decreases pairs.len(),
{
    if pairs.len() == 0 {
        Seq::empty()
    } else {
        let rest = declared_jumps(systems, pairs.drop_last());
        let p = pairs.last();
        if first_mention(pairs, pairs.len() - 1) {
            rest.push((position_of(systems, p.0) as usize, position_of(systems, p.1) as usize))
        } else {
            rest
        }
    }
}

/// The `k`-th declaration is the first that names an identifier which no
/// system carries.
pub open spec fn first_unknown(systems: Seq<System>, pairs: Seq<(u32, u32)>, k: int) -> bool {
    &&& 0 <= k < pairs.len()
    &&& !knows(systems, pairs[k].0) || !knows(systems, pairs[k].1)
    &&& forall|j: int|
        0 <= j < k ==> knows(systems, (#[trigger] pairs[j]).0) && knows(systems, pairs[j].1)
}

/// A pair of identifiers as one number.
pub open spec fn key_code(key: (u32, u32)) -> u64 {
    (key.0 as u64 * 0x1_0000_0000 + key.1 as u64) as u64
}

/// The position of a known identifier lies among the systems and holds it.
pub proof fn lemma_position_of(systems: Seq<System>, id: u32)
    ensures
        -1 <= position_of(systems, id) < systems.len(),
        knows(systems, id) ==> systems[position_of(systems, id)].id == id,
        forall|i: int|
            position_of(systems, id) < i < systems.len() ==> (#[trigger] systems[i]).id != id,
    decreases systems.len(),
{
    if systems.len() > 0 {
        let rest = systems.drop_last();
        lemma_position_of(rest, id);
        assert forall|i: int| position_of(systems, id) < i < systems.len() implies (
        #[trigger] systems[i]).id != id by {
            if i < rest.len() {
                assert(rest[i].id != id);
            }
        }
    }
}

/// The graph of `systems`, in their order, with one jump for every jump
/// that `pairs` declares, however often and in whichever direction it is
/// declared. Where several systems carry one identifier, a jump declared
/// for it goes to the last of them. The graph is refused where a
/// declaration names an identifier that no system carries; the error holds
/// the first such identifier.
pub fn build_graph(systems: &Vec<System>, pairs: &Vec<(u32, u32)>) -> (built: Result<
    Graph<System, (), Undirected>,
    BuildError,
>)
    requires
        systems.len() < u32::MAX,
        pairs.len() <= u32::MAX,
    ensures
        match built {
            Ok(g) => topology(&g).well_formed() && graph_nodes(g) == systems@ && graph_edges(g)
                == declared_jumps(systems@, pairs@) && forall|k: int|
                0 <= k < pairs.len() ==> knows(systems@, (#[trigger] pairs[k]).0) && knows(
                    systems@,
                    pairs[k].1,
                ),
            Err(e) => exists|k: int| #[trigger]
                first_unknown(systems@, pairs@, k) && e == BuildError::UnknownSystem(
                    if !knows(systems@, pairs[k].0) {
                        pairs[k].0
                    } else {
                        pairs[k].1
                    },
                ),
        },
{
    broadcast use vstd::std_specs::hash::group_hash_axioms;

    let mut graph = empty_graph();
    let mut node_index: HashMap<u32, usize> = HashMap::new();
    let mut i: usize = 0;
    while i < systems.len()
        invariant
            i <= systems.len(),
            systems.len() < u32::MAX,
            graph_nodes(graph) == systems@.take(i as int),
            graph_edges(graph) == Seq::<(usize, usize)>::empty(),
            forall|id: u32|
                node_index@.contains_key(id) == knows(systems@.take(i as int), id),
            forall|id: u32|
                node_index@.contains_key(id) ==> node_index@[id] == position_of(
                    systems@.take(i as int),
                    id,
                ),
        decreases systems.len() - i,
    {
        let system = System { id: systems[i].id, name: systems[i].name.clone() };
        let at = add_system(&mut graph, system);
        node_index.insert(systems[i].id, at);
        proof {
            assert(system == systems[i as int]);
            assert(systems@.take(i + 1).drop_last() =~= systems@.take(i as int));
            assert(systems@.take(i as int).push(system) =~= systems@.take(i + 1));
        }
        i += 1;
    }
    assert(systems@.take(systems.len() as int) =~= systems@);
    let mut added: HashSet<u64> = HashSet::new();
    let mut k: usize = 0;
    while k < pairs.len()
        invariant
            k <= pairs.len(),
            pairs.len() <= u32::MAX,
            graph_nodes(graph) == systems@,
            graph_edges(graph) == declared_jumps(systems@, pairs@.take(k as int)),
            graph_edges(graph).len() <= k,
            topology(&graph).well_formed(),
            forall|id: u32| node_index@.contains_key(id) == knows(systems@, id),
            forall|id: u32|
                node_index@.contains_key(id) ==> node_index@[id] == position_of(systems@, id),
            forall|c: u64|
                added@.contains(c) <==> exists|j: int|
                    0 <= j < k && key_code(pair_key(#[trigger] pairs[j])) == c,
            forall|j: int|
                0 <= j < k ==> knows(systems@, (#[trigger] pairs[j]).0) && knows(
                    systems@,
                    pairs[j].1,
                ),
        decreases pairs.len() - k,
    {
        let from = pairs[k].0;
        let to = pairs[k].1;
        let index1 = match node_index.get(&from) {
            Some(at) => *at,
            None => {
                assert(first_unknown(systems@, pairs@, k as int));
                return Err(BuildError::UnknownSystem(from));
            },
        };
        let index2 = match node_index.get(&to) {
            Some(at) => *at,
            None => {
                assert(first_unknown(systems@, pairs@, k as int));
                return Err(BuildError::UnknownSystem(to));
            },
        };
        let system_pair = sort_tuple((from, to));
        let code: u64 = system_pair.0 as u64 * 0x1_0000_0000 + system_pair.1 as u64;
        proof {
            lemma_position_of(systems@, from);
            lemma_position_of(systems@, to);
            assert(system_pair == pair_key(pairs[k as int]));
            assert(code == key_code(pair_key(pairs[k as int])));
            assert(pairs@.take(k + 1).drop_last() =~= pairs@.take(k as int));
            assert(first_mention(pairs@.take(k + 1), k as int) == !added@.contains(code)) by {
                if added@.contains(code) {
                    let j = choose|j: int|
                        0 <= j < k && key_code(pair_key(#[trigger] pairs[j])) == code;
                    assert(pair_key(pairs@.take(k + 1)[j]) == pair_key(pairs[k as int]));
                } else {
                    assert forall|j: int| 0 <= j < k implies pair_key(
                        #[trigger] pairs@.take(k + 1)[j],
                    ) != pair_key(pairs@.take(k + 1)[k as int]) by {
                        assert(key_code(pair_key(pairs[j])) != code);
                    }
                }
            }
        }
        if !added.contains(&code) {
            let ghost old_graph = topology(&graph);
            let ghost jumps = old_graph.jumps;
            assert(old_graph.well_formed());
            add_jump(&mut graph, index1, index2);
            added.insert(code);
            proof {
                assert forall|e: int| 0 <= e < graph_edges(graph).len() implies (
                #[trigger] graph_edges(graph)[e]).0 < systems.len() && graph_edges(graph)[e].1
                    < systems.len() by {
                    if e < jumps.len() {
                        assert(graph_edges(graph)[e] == jumps[e]);
                        assert(old_graph.jumps[e].0 < old_graph.size());
                    } else {
                        assert(graph_edges(graph)[e] == (index1, index2));
                    }
                }
            }
        }
        k += 1;
    }
    assert(pairs@.take(pairs.len() as int) =~= pairs@);
    Ok(graph)
}

} // verus!
