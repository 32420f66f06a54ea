//! What a diagram of a route shows: every system with its visits.

use vstd::prelude::*;
use petgraph::graph::Graph;
use petgraph::Undirected;
use crate::builder::position_of;
use crate::store::{graph_nodes, node_count, system_at};
use crate::system::{System, SystemWithJump};

verus! {

/// The positions at which `path` holds `id`, in ascending order.
pub open spec fn visits(path: Seq<u32>, id: u32) -> Seq<usize>
    decreases path.len(),
{
    if path.len() == 0 {
        Seq::empty()
    } else if path.last() == id {
        visits(path.drop_last(), id).push((path.len() - 1) as usize)
    } else {
        visits(path.drop_last(), id)
    }
}

/// The text of a label: what `format!` makes of a name and a list of
/// positions, the name as it is and the list in its debug form.
pub uninterp spec fn label_text(name: Seq<char>, jumps: Seq<usize>) -> Seq<char>;

/// `format!("{} {:?}", ..)` on a name and a list of positions.
#[verifier::external_body]
fn format_label(name: &String, jumps: &Vec<usize>) -> (text: String)
    ensures
        text@ == label_text(name@, jumps@),
{
    format!("{} {:?}", name, jumps)
}

impl SystemWithJump {
    /// The label of the system in a diagram: its name and the positions at
    /// which the route visits it.
    pub fn label(&self) -> (text: String)
        ensures
            text@ == label_text(self.name@, self.jumps@),
    {
        format_label(&self.name, &self.jumps)
    }
}

/// The positions at which `path` visits `id`, in ascending order.
pub fn jump_positions(path: &Vec<u32>, id: u32) -> (jumps: Vec<usize>)
    ensures
        jumps@ == visits(path@, id),
{
    let mut jumps: Vec<usize> = Vec::new();
    let mut position: usize = 0;
    while position < path.len()
        invariant
            position <= path.len(),
            jumps@ == visits(path@.take(position as int), id),
        decreases path.len() - position,
    {
        assert(path@.take(position + 1).drop_last() =~= path@.take(position as int));
        if path[position] == id {
            jumps.push(position);
        }
        position += 1;
    }
    assert(path@.take(path.len() as int) =~= path@);
    jumps
}

/// Every system of the graph, in node order, with the positions at which
/// `path` visits it.
pub fn with_jumps(graph: &Graph<System, (), Undirected>, path: &Vec<u32>) -> (annotated: Vec<
    SystemWithJump,
>)
    ensures
        annotated.len() == graph_nodes(*graph).len(),
        forall|i: int|
            0 <= i < annotated.len() ==> (#[trigger] annotated[i]).id == graph_nodes(*graph)[i].id
                && annotated[i].name == graph_nodes(*graph)[i].name && annotated[i].jumps@
                == visits(path@, graph_nodes(*graph)[i].id),
{
    let n = node_count(graph);
    let mut annotated: Vec<SystemWithJump> = Vec::new();
    let mut i: usize = 0;
    while i < n
        invariant
            n == graph_nodes(*graph).len(),
            i <= n,
            annotated.len() == i,
            forall|k: int|
                0 <= k < i ==> (#[trigger] annotated[k]).id == graph_nodes(*graph)[k].id
                    && annotated[k].name == graph_nodes(*graph)[k].name && annotated[k].jumps@
                    == visits(path@, graph_nodes(*graph)[k].id),
        decreases n - i,
    {
        let s = system_at(graph, i);
        annotated.push(
            SystemWithJump { id: s.id, name: s.name.clone(), jumps: jump_positions(path, s.id) },
        );
        i += 1;
    }
    annotated
}

/// The name of the last system that carries `id`, or the empty name where
/// no system carries it.
pub open spec fn name_of(systems: Seq<System>, id: u32) -> Seq<char> {
    if position_of(systems, id) >= 0 {
        systems[position_of(systems, id)].name@
    } else {
        Seq::empty()
    }
}

/// The name of the last system that carries `id`, or the empty name.
pub fn system_name(graph: &Graph<System, (), Undirected>, id: u32) -> (name: String)
    ensures
        name@ == name_of(graph_nodes(*graph), id),
{
    let n = node_count(graph);
    let mut i: usize = n;
    assert(graph_nodes(*graph).take(n as int) =~= graph_nodes(*graph));
    while i > 0
        invariant
            n == graph_nodes(*graph).len(),
            i <= n,
            position_of(graph_nodes(*graph), id) == position_of(
                graph_nodes(*graph).take(i as int),
                id,
            ),
        decreases i,
    {
        let s = system_at(graph, i - 1);
        if s.id == id {
            return s.name.clone();
        }
        proof {
            assert(graph_nodes(*graph).take(i as int).drop_last() =~= graph_nodes(*graph).take(
                i - 1,
            ));
        }
        i -= 1;
    }
    String::new()
}

/// The names of the systems along `route`.
pub fn route_names(graph: &Graph<System, (), Undirected>, route: &Vec<u32>) -> (names: Vec<String>)
    ensures
        names.len() == route.len(),
        forall|k: int|
            0 <= k < route.len() ==> (#[trigger] names[k])@ == name_of(
                graph_nodes(*graph),
                route[k],
            ),
{
    let mut names: Vec<String> = Vec::new();
    let mut k: usize = 0;
    while k < route.len()
        invariant
            k <= route.len(),
            names.len() == k,
            forall|j: int|
                0 <= j < k ==> (#[trigger] names[j])@ == name_of(graph_nodes(*graph), route[j]),
        decreases route.len() - k,
    {
        names.push(system_name(graph, route[k]));
        k += 1;
    }
    names
}

} // verus!
