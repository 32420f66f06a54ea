use jump_planner::builder::{build_graph, BuildError};
use jump_planner::diagram::{jump_positions, route_names, system_name, with_jumps};
use jump_planner::pairs::sort_tuple;
use jump_planner::region::{connected_component, find_by_name, has_cycle};
use jump_planner::store::{filter_nodes, find_system, is_proper};
use jump_planner::system::{System, SystemWithJump};
use petgraph::graph::Graph;
use petgraph::graph::NodeIndex;
use petgraph::Undirected;

fn named(id: u32, name: &str) -> System {
    System { id, name: name.to_string() }
}

fn sample() -> Graph<System, (), Undirected> {
    let systems = vec![
        named(30000142, "Jita"),
        named(30000144, "Perimeter"),
        named(30000139, "Urlen"),
        named(30002187, "Amarr"),
        named(30002188, "Sarum Prime"),
    ];
    let pairs = vec![
        (30000142, 30000144),
        (30000144, 30000142),
        (30000144, 30000139),
        (30000139, 30000142),
        (30002187, 30002188),
        (30002188, 30002187),
    ];
    build_graph(&systems, &pairs).expect("every pair names known systems")
}

fn ends(graph: &Graph<System, (), Undirected>) -> Vec<(usize, usize)> {
    graph
        .edge_indices()
        .map(|e| graph.edge_endpoints(e).unwrap())
        .map(|(a, b)| (a.index(), b.index()))
        .collect()
}

#[test]
fn build_keeps_systems_in_order_and_one_jump_per_pair() {
    let g = sample();
    assert_eq!(g.node_count(), 5);
    assert_eq!(g[NodeIndex::new(0)].id, 30000142);
    assert_eq!(g[NodeIndex::new(0)].name, "Jita");
    assert_eq!(g[NodeIndex::new(4)].name, "Sarum Prime");
    assert_eq!(ends(&g), vec![(0, 1), (1, 2), (2, 0), (3, 4)]);
}

#[test]
fn build_collapses_repeated_declarations() {
    let systems = vec![named(1, "a"), named(2, "b")];
    let g = build_graph(&systems, &vec![(1, 2), (2, 1), (1, 2), (2, 1)]).unwrap();
    assert_eq!(ends(&g), vec![(0, 1)]);
    let h = build_graph(&systems, &vec![(2, 1), (1, 2)]).unwrap();
    assert_eq!(ends(&h), vec![(1, 0)]);
}

#[test]
fn build_refuses_an_unknown_system() {
    let systems = vec![named(1, "a"), named(2, "b")];
    let missing_target = build_graph(&systems, &vec![(1, 2), (2, 3), (4, 1)]);
    assert_eq!(missing_target.err(), Some(BuildError::UnknownSystem(3)));
    let missing_source = build_graph(&systems, &vec![(9, 8)]);
    assert_eq!(missing_source.err(), Some(BuildError::UnknownSystem(9)));
    let none: Vec<System> = Vec::new();
    assert_eq!(build_graph(&none, &vec![(1, 1)]).err(), Some(BuildError::UnknownSystem(1)));
}

#[test]
fn build_of_nothing_is_empty() {
    let g = build_graph(&Vec::new(), &Vec::new()).unwrap();
    assert_eq!(g.node_count(), 0);
    assert_eq!(g.edge_count(), 0);
}

#[test]
fn build_sends_a_jump_to_the_last_system_of_an_identifier() {
    let systems = vec![named(1, "old"), named(2, "b"), named(1, "new")];
    let g = build_graph(&systems, &vec![(1, 2)]).unwrap();
    assert_eq!(ends(&g), vec![(2, 1)]);
}

#[test]
fn sort_tuple_orders_a_pair() {
    assert_eq!(sort_tuple((2u32, 1u32)), (1, 2));
    assert_eq!(sort_tuple((1u32, 2u32)), (1, 2));
    assert_eq!(sort_tuple((3u32, 3u32)), (3, 3));
    assert_eq!(sort_tuple(("b", "a")), ("a", "b"));
    assert_eq!(sort_tuple((-5i64, -7i64)), (-7, -5));
}

#[test]
fn filter_nodes_keeps_the_accepted_systems_and_their_jumps() {
    let g = sample();
    let sub = filter_nodes(&g, |_, s: &System| s.id != 30000144);
    let ids: Vec<u32> = sub.node_indices().map(|i| sub[i].id).collect();
    assert_eq!(ids, vec![30000142, 30000139, 30002187, 30002188]);
    assert_eq!(sub[NodeIndex::new(1)].name, "Urlen");
    assert_eq!(ends(&sub), vec![(1, 0), (2, 3)]);

    let by_position = filter_nodes(&g, |i, _: &System| i >= 3);
    assert_eq!(by_position.node_count(), 2);
    assert_eq!(ends(&by_position), vec![(0, 1)]);

    let all = filter_nodes(&g, |_, _: &System| true);
    assert_eq!(ends(&all), ends(&g));
    let nothing = filter_nodes(&g, |_, _: &System| false);
    assert_eq!(nothing.node_count(), 0);
    assert_eq!(nothing.edge_count(), 0);
}

#[test]
fn find_system_gives_the_first_position() {
    let g = sample();
    assert_eq!(find_system(&g, 30000139), Some(2));
    assert_eq!(find_system(&g, 30000142), Some(0));
    assert_eq!(find_system(&g, 5), None);
}

#[test]
fn find_by_name_gives_the_first_position() {
    let g = sample();
    assert_eq!(find_by_name(&g, &"Amarr".to_string()), Some(3));
    assert_eq!(find_by_name(&g, &"amarr".to_string()), None);
}

#[test]
fn connected_component_is_the_reachable_part() {
    let g = sample();
    let region = connected_component(&g, 1);
    let ids: Vec<u32> = region.node_indices().map(|i| region[i].id).collect();
    assert_eq!(ids, vec![30000142, 30000144, 30000139]);
    assert_eq!(ends(&region), vec![(0, 1), (1, 2), (2, 0)]);
    let other = connected_component(&g, 4);
    let ids: Vec<u32> = other.node_indices().map(|i| other[i].id).collect();
    assert_eq!(ids, vec![30002187, 30002188]);
    assert_eq!(ends(&other), vec![(0, 1)]);
}

#[test]
fn has_cycle_sees_the_triangle() {
    let g = sample();
    assert!(has_cycle(&g));
    assert!(has_cycle(&connected_component(&g, 0)));
    assert!(!has_cycle(&connected_component(&g, 3)));
    let tree = build_graph(
        &vec![named(1, "a"), named(2, "b"), named(3, "c")],
        &vec![(1, 2), (1, 3)],
    )
    .unwrap();
    assert!(!has_cycle(&tree));
    let looped = build_graph(&vec![named(1, "a")], &vec![(1, 1)]).unwrap();
    assert!(has_cycle(&looped));
}

#[test]
fn jump_positions_lists_every_visit() {
    let path = vec![2, 3, 2, 1, 4, 1];
    assert_eq!(jump_positions(&path, 2), vec![0, 2]);
    assert_eq!(jump_positions(&path, 1), vec![3, 5]);
    assert_eq!(jump_positions(&path, 9), Vec::<usize>::new());
    assert_eq!(jump_positions(&Vec::new(), 1), Vec::<usize>::new());
}

#[test]
fn with_jumps_annotates_every_system() {
    let g = sample();
    let path = vec![30000144, 30000139, 30000142, 30000144];
    let annotated = with_jumps(&g, &path);
    assert_eq!(annotated.len(), 5);
    assert_eq!(annotated[0].id, 30000142);
    assert_eq!(annotated[0].name, "Jita");
    assert_eq!(annotated[0].jumps, vec![2]);
    assert_eq!(annotated[1].jumps, vec![0, 3]);
    assert_eq!(annotated[3].jumps, Vec::<usize>::new());
    assert_eq!(annotated[1].label(), "Perimeter [0, 3]");
    assert_eq!(annotated[3].label(), "Amarr []");
}

#[test]
fn label_shows_name_and_jumps() {
    let s = SystemWithJump { id: 1, name: "Jita".to_string(), jumps: vec![0, 7, 12] };
    assert_eq!(s.label(), "Jita [0, 7, 12]");
}

#[test]
fn route_names_follow_the_route() {
    let g = sample();
    let names = route_names(&g, &vec![30000144, 5, 30000142]);
    assert_eq!(names, vec!["Perimeter".to_string(), String::new(), "Jita".to_string()]);
    assert_eq!(route_names(&g, &Vec::new()), Vec::<String>::new());
    assert_eq!(system_name(&g, 30002188), "Sarum Prime");

    let twice = build_graph(&vec![named(1, "old"), named(1, "new")], &Vec::new()).unwrap();
    assert_eq!(system_name(&twice, 1), "new");
}

#[test]
fn is_proper_sees_a_repeated_identifier() {
    assert!(is_proper(&sample()));
    let twice = build_graph(&vec![named(1, "a"), named(2, "b"), named(1, "c")], &Vec::new());
    assert!(!is_proper(&twice.unwrap()));
    assert!(is_proper(&build_graph(&Vec::new(), &Vec::new()).unwrap()));
}
