use jump_planner::builder::build_graph;
use jump_planner::planner::{
    exhaust_trunks, find_longest_paths, plan_coverage, reduce, trunk_segment, unexplored_from,
    PlanError,
};
use jump_planner::search::{longest_path_to, longest_simple_path, pick_longest};
use jump_planner::system::System;
use petgraph::graph::Graph;
use petgraph::graph::NodeIndex;
use petgraph::Undirected;
use std::collections::BTreeSet;

fn system(id: u32) -> System {
    System { id, name: format!("S{}", id) }
}

fn graph_of(ids: &[u32], pairs: &[(u32, u32)]) -> Graph<System, (), Undirected> {
    let systems: Vec<System> = ids.iter().map(|id| system(*id)).collect();
    build_graph(&systems, &pairs.to_vec()).expect("every pair names known systems")
}

fn joined(graph: &Graph<System, (), Undirected>, a: u32, b: u32) -> bool {
    let at = |id: u32| graph.node_indices().find(|i| graph[*i].id == id);
    match (at(a), at(b)) {
        (Some(i), Some(j)) => graph.contains_edge(i, j),
        _ => false,
    }
}

fn is_round_trip(graph: &Graph<System, (), Undirected>, start: u32, route: &[u32]) -> bool {
    let mut here = start;
    for next in route {
        if !joined(graph, here, *next) {
            return false;
        }
        here = *next;
    }
    here == start
}

fn distinct(route: &[u32]) -> BTreeSet<u32> {
    route.iter().copied().collect()
}

#[test]
fn four_cycle_is_covered_by_one_trunk() {
    let g = graph_of(&[1, 2, 3, 4], &[(1, 2), (2, 3), (3, 4), (4, 1)]);
    let path = longest_simple_path(&g, 0).expect("the anchor has neighbours");
    assert_eq!(path.len(), 4);
    assert_eq!(path[0], 0);
    assert_eq!(path.iter().copied().collect::<BTreeSet<usize>>().len(), 4);
    assert!(g.contains_edge(NodeIndex::new(path[3]), NodeIndex::new(0)));

    let route = find_longest_paths(g.clone(), 1);
    assert_eq!(route.len(), 4);
    assert_eq!(*route.last().unwrap(), 1);
    assert!(is_round_trip(&g, 1, &route));
    assert_eq!(distinct(&route), BTreeSet::from([1, 2, 3, 4]));
    assert!(route == vec![2, 3, 4, 1] || route == vec![4, 3, 2, 1]);
}

#[test]
fn star_returns_to_the_centre_after_every_leaf() {
    let g = graph_of(&[1, 2, 3, 4], &[(1, 2), (1, 3), (1, 4)]);
    let path = longest_simple_path(&g, 0).expect("the centre has neighbours");
    assert_eq!(path.len(), 2);
    assert_eq!(path[0], 0);

    let route = find_longest_paths(g.clone(), 1);
    assert_eq!(route.len(), 6);
    assert_eq!(route[1], 1);
    assert_eq!(route[3], 1);
    assert_eq!(route[5], 1);
    assert_eq!(BTreeSet::from([route[0], route[2], route[4]]), BTreeSet::from([2, 3, 4]));
    assert!(is_round_trip(&g, 1, &route));
}

#[test]
fn disconnected_pair_is_covered_on_the_reachable_side() {
    let g = graph_of(&[1, 2, 3, 4], &[(1, 2), (3, 4)]);
    let route = find_longest_paths(g.clone(), 1);
    assert_eq!(route, vec![2, 1]);
    let other = find_longest_paths(g, 3);
    assert_eq!(other, vec![4, 3]);
}

#[test]
fn single_system_has_an_empty_route() {
    let g = graph_of(&[7], &[]);
    assert_eq!(longest_simple_path(&g, 0), None);
    assert_eq!(trunk_segment(&g, 0), None);
    assert_eq!(find_longest_paths(g, 7), Vec::<u32>::new());
}

#[test]
fn isolated_start_has_an_empty_route() {
    let g = graph_of(&[1, 2, 3], &[(2, 3)]);
    assert_eq!(longest_simple_path(&g, 0), None);
    assert_eq!(find_longest_paths(g, 1), Vec::<u32>::new());
}

#[test]
fn two_systems_go_there_and_back() {
    let g = graph_of(&[10, 20], &[(10, 20)]);
    assert_eq!(find_longest_paths(g.clone(), 10), vec![20, 10]);
    assert_eq!(find_longest_paths(g, 20), vec![10, 20]);
}

#[test]
fn longest_simple_path_outside_the_graph_is_none() {
    let g = graph_of(&[1, 2], &[(1, 2)]);
    assert_eq!(longest_simple_path(&g, 2), None);
    assert_eq!(longest_simple_path(&g, 99), None);
}

#[test]
fn longest_simple_path_never_comes_back_to_the_anchor() {
    let g = graph_of(&[1, 2, 3], &[(1, 2), (2, 3), (3, 1)]);
    let path = longest_simple_path(&g, 0).expect("the anchor has neighbours");
    assert_eq!(path.len(), 3);
    assert_eq!(path[0], 0);
    assert_ne!(path[2], 0);
    assert_eq!(path.iter().copied().collect::<BTreeSet<usize>>().len(), 3);
}

#[test]
fn longest_path_to_a_target() {
    let g = graph_of(&[1, 2, 3, 4], &[(1, 2), (2, 3), (3, 4), (1, 3)]);
    assert_eq!(longest_path_to(&g, 0, 0), None);
    assert_eq!(longest_path_to(&g, 0, 3), Some(vec![0, 1, 2, 3]));
    assert_eq!(longest_path_to(&g, 0, 2), Some(vec![0, 1, 2]));
    assert_eq!(longest_path_to(&g, 0, 1), Some(vec![0, 2, 1]));
    let apart = graph_of(&[1, 2, 3], &[(1, 2)]);
    assert_eq!(longest_path_to(&apart, 0, 2), None);
}

#[test]
fn pick_longest_takes_the_last_of_the_longest() {
    assert_eq!(pick_longest(vec![]), None);
    assert_eq!(pick_longest(vec![vec![1]]), Some(vec![1]));
    assert_eq!(
        pick_longest(vec![vec![0, 1, 2], vec![0, 3], vec![0, 4, 5], vec![0]]),
        Some(vec![0, 4, 5])
    );
    assert_eq!(pick_longest(vec![vec![0, 1], vec![0, 1, 2, 3], vec![7]]), Some(vec![0, 1, 2, 3]));
}

#[test]
fn trunk_segment_goes_out_and_back() {
    let g = graph_of(&[1, 2, 3], &[(1, 2), (2, 3)]);
    assert_eq!(trunk_segment(&g, 0), Some(vec![1, 2, 1, 0]));
    assert_eq!(trunk_segment(&g, 2), Some(vec![1, 0, 1, 2]));
    let ring = graph_of(&[1, 2, 3, 4], &[(1, 2), (2, 3), (3, 4), (4, 1)]);
    let segment = trunk_segment(&ring, 0).expect("the anchor has neighbours");
    assert!(segment == vec![1, 2, 3, 0] || segment == vec![3, 2, 1, 0]);
}

#[test]
fn reduce_keeps_the_anchor_and_drops_the_rest() {
    let g = graph_of(&[1, 2, 3, 4], &[(1, 2), (2, 3), (3, 4), (4, 1)]);
    let reduced = reduce(&g, &vec![1, 2, 1, 0], 0);
    assert_eq!(reduced.node_count(), 2);
    assert_eq!(reduced[NodeIndex::new(0)].id, 1);
    assert_eq!(reduced[NodeIndex::new(1)].id, 4);
    assert_eq!(reduced.edge_count(), 1);
    assert!(reduced.contains_edge(NodeIndex::new(0), NodeIndex::new(1)));
    assert!(reduced.node_count() < g.node_count());

    let same = reduce(&g, &vec![0], 0);
    assert_eq!(same.node_count(), 4);
    assert_eq!(same.edge_count(), 4);
}

#[test]
fn unexplored_from_keeps_what_was_not_passed() {
    let g = graph_of(&[1, 2, 3, 4, 5], &[(1, 2), (2, 3), (2, 4), (4, 5)]);
    let sub = unexplored_from(&g, &vec![2, 3, 2, 1], &vec![2], 2);
    let ids: Vec<u32> = sub.node_indices().map(|i| sub[i].id).collect();
    assert_eq!(ids, vec![2, 4, 5]);
    assert_eq!(sub.edge_count(), 2);
    assert!(sub.node_count() < g.node_count());
}

#[test]
fn exhaust_trunks_consumes_one_trunk_after_the_other() {
    let g = graph_of(&[1, 2, 3, 4, 5], &[(1, 2), (2, 3), (1, 4), (4, 5)]);
    let flat = exhaust_trunks(&g, 1);
    assert!(flat == vec![2, 3, 2, 1, 4, 5, 4, 1] || flat == vec![4, 5, 4, 1, 2, 3, 2, 1]);
    let alone = graph_of(&[1], &[]);
    assert_eq!(exhaust_trunks(&alone, 1), Vec::<u32>::new());
}

#[test]
fn detour_is_spliced_in_where_the_branch_is_met() {
    let g = graph_of(&[1, 2, 3, 4], &[(1, 2), (2, 3), (2, 4)]);
    let route = find_longest_paths(g.clone(), 1);
    assert!(route == vec![2, 4, 2, 3, 2, 1] || route == vec![2, 3, 2, 4, 2, 1]);
    assert!(is_round_trip(&g, 1, &route));
}

#[test]
fn deeper_branches_are_planned_recursively() {
    let pairs = [(1, 2), (2, 3), (3, 4), (2, 5), (5, 6), (5, 7), (3, 8)];
    let g = graph_of(&[1, 2, 3, 4, 5, 6, 7, 8], &pairs);
    let route = find_longest_paths(g.clone(), 1);
    assert!(is_round_trip(&g, 1, &route));
    assert_eq!(distinct(&route), BTreeSet::from([1, 2, 3, 4, 5, 6, 7, 8]));
    assert_eq!(route.len(), 14);
}

#[test]
fn route_is_a_round_trip_through_the_whole_component() {
    let pairs = [(1, 2), (2, 3), (3, 1), (3, 4), (4, 5), (5, 6), (6, 4), (7, 8)];
    let g = graph_of(&[1, 2, 3, 4, 5, 6, 7, 8, 9], &pairs);
    for start in [1u32, 2, 3, 4, 5, 6] {
        let route = find_longest_paths(g.clone(), start);
        assert!(is_round_trip(&g, start, &route));
        assert_eq!(*route.last().unwrap(), start);
        assert_eq!(distinct(&route), BTreeSet::from([1, 2, 3, 4, 5, 6]));
    }
    let route = find_longest_paths(g.clone(), 7);
    assert_eq!(route, vec![8, 7]);
    assert_eq!(find_longest_paths(g, 9), Vec::<u32>::new());
}

#[test]
fn two_runs_cover_the_same_systems() {
    let pairs = [(1, 2), (2, 3), (3, 4), (4, 1), (2, 4), (4, 5)];
    let g = graph_of(&[1, 2, 3, 4, 5], &pairs);
    let first = find_longest_paths(g.clone(), 1);
    let second = find_longest_paths(g.clone(), 1);
    assert_eq!(distinct(&first), distinct(&second));
    assert_eq!(distinct(&first), BTreeSet::from([1, 2, 3, 4, 5]));
    assert!(is_round_trip(&g, 1, &first));
    assert!(is_round_trip(&g, 1, &second));
}

#[test]
fn square_with_a_chord_is_covered_whichever_path_is_taken() {
    let g = graph_of(&[1, 2, 3, 4], &[(1, 2), (2, 3), (3, 4), (4, 1), (2, 4)]);
    let route = find_longest_paths(g.clone(), 1);
    assert!(route.len() == 4 || route.len() == 5);
    assert!(is_round_trip(&g, 1, &route));
    assert_eq!(distinct(&route), BTreeSet::from([1, 2, 3, 4]));
}

#[test]
fn plan_coverage_refuses_what_cannot_be_planned() {
    let g = graph_of(&[1, 2, 3], &[(1, 2), (2, 3)]);
    assert_eq!(plan_coverage(&g, 9), Err(PlanError::UnknownStart));
    assert_eq!(plan_coverage(&g, 1), Ok(vec![2, 3, 2, 1]));
    assert_eq!(plan_coverage(&g, 2).map(|r| r.len()), Ok(4));

    let twice = graph_of(&[1, 2, 1], &[(1, 2)]);
    assert_eq!(plan_coverage(&twice, 2), Err(PlanError::RepeatedIdentifier));
    assert_eq!(plan_coverage(&twice, 5), Err(PlanError::UnknownStart));
}

#[test]
fn trunk_segment_outside_the_graph_is_none() {
    let g = graph_of(&[1, 2], &[(1, 2)]);
    assert_eq!(trunk_segment(&g, 2), None);
}

#[test]
fn jump_to_itself_is_never_travelled() {
    let mut g: Graph<System, (), Undirected> = Graph::new_undirected();
    let a = g.add_node(system(1));
    let b = g.add_node(system(2));
    g.add_edge(a, a, ());
    assert_eq!(longest_simple_path(&g, 0), None);
    assert_eq!(find_longest_paths(g.clone(), 1), Vec::<u32>::new());
    g.add_edge(a, b, ());
    g.add_edge(b, b, ());
    assert_eq!(longest_simple_path(&g, 0), Some(vec![0, 1]));
    assert_eq!(find_longest_paths(g, 1), vec![2, 1]);
}

#[test]
fn repeated_jumps_change_nothing() {
    let mut g: Graph<System, (), Undirected> = Graph::new_undirected();
    let a = g.add_node(system(1));
    let b = g.add_node(system(2));
    let c = g.add_node(system(3));
    g.add_edge(a, b, ());
    g.add_edge(b, a, ());
    g.add_edge(b, c, ());
    g.add_edge(b, c, ());
    assert_eq!(longest_simple_path(&g, 0), Some(vec![0, 1, 2]));
    assert_eq!(find_longest_paths(g, 1), vec![2, 3, 2, 1]);
}

#[test]
fn graph_that_lost_a_system_is_planned_as_it_stands() {
    let mut g = graph_of(&[1, 2, 3, 4, 5], &[(1, 2), (2, 3), (3, 4), (4, 5), (5, 1)]);
    g.remove_node(NodeIndex::new(1));
    let ids: Vec<u32> = g.node_indices().map(|i| g[i].id).collect();
    assert_eq!(ids, vec![1, 5, 3, 4]);
    let route = find_longest_paths(g.clone(), 1);
    assert_eq!(route, vec![5, 4, 3, 4, 5, 1]);
    assert!(is_round_trip(&g, 1, &route));
}
