use sentinel::graph::commands::{promote_edge, twist_cycle};
use sentinel::graph::components::{Edge, Graph, GraphWorld, Node};
use sentinel::graph::model::EdgeFault;
use sentinel::graph::ops::{EdgeGraph, EdgeInput, EdgeOutput};
use sentinel::graph::util::{
    edge_graph, edge_input, edge_output, graph, in_graph, infer_graph, node_inputs, node_outputs,
    parent_graph,
};
use sentinel::progression::graph::Markers;

fn world_with(n: usize) -> GraphWorld {
    let mut w = GraphWorld::new();
    for _ in 0..n {
        w.spawn();
    }
    w
}

fn inputs(w: &GraphWorld, x: u64) -> Option<Vec<u64>> {
    w.node(x).map(|n| n.inputs().clone())
}

fn outputs(w: &GraphWorld, x: u64) -> Option<Vec<u64>> {
    w.node(x).map(|n| n.outputs().clone())
}

fn edges(w: &GraphWorld, g: u64) -> Option<Vec<u64>> {
    w.graph(g).map(|gr| gr.edges().clone())
}

#[test]
fn insert_edge_lists_it_at_its_nodes_and_graph() {
    let mut w = world_with(4);
    let (g, a, b, e) = (0, 1, 2, 3);
    assert_eq!(w.insert_edge(e, Edge::new(a, b, g)), Ok(()));
    assert_eq!(w.edge(e), Some(Edge::new(a, b, g)));
    assert_eq!(outputs(&w, a), Some(vec![e]));
    assert_eq!(inputs(&w, a), Some(vec![]));
    assert_eq!(inputs(&w, b), Some(vec![e]));
    assert_eq!(edges(&w, g), Some(vec![e]));
    assert!(w.node(a).unwrap().has_outputs());
    assert!(!w.node(a).unwrap().has_inputs());
    assert!(w.node(b).unwrap().has_connections());
    assert!(!w.graph(g).unwrap().is_empty());
}

fn fault_of(d: Edge, setup_edge: bool) -> (Result<(), EdgeFault>, GraphWorld) {
    // entities: 0 graph, 1 and 2 nodes, 3 an existing edge, 4 the new edge
    let mut w = world_with(5);
    if setup_edge {
        assert_eq!(w.insert_edge(3, Edge::new(1, 2, 0)), Ok(()));
    }
    let r = w.insert_edge(4, d);
    (r, w)
}

#[test]
fn insert_edge_refuses_malformed_edges() {
    let cases = [
        (Edge::new(4, 2, 0), EdgeFault::InputIsSelf),
        (Edge::new(1, 4, 0), EdgeFault::OutputIsSelf),
        (Edge::new(1, 2, 4), EdgeFault::GraphIsSelf),
        (Edge::new(9, 2, 0), EdgeFault::InputMissing),
        (Edge::new(3, 2, 0), EdgeFault::InputIsEdge),
        (Edge::new(1, 9, 0), EdgeFault::OutputMissing),
        (Edge::new(1, 3, 0), EdgeFault::OutputIsEdge),
        (Edge::new(1, 2, 9), EdgeFault::GraphMissing),
        (Edge::new(1, 2, 3), EdgeFault::GraphIsEdge),
    ];
    for (d, fault) in cases {
        let (r, w) = fault_of(d, true);
        assert_eq!(r, Err(fault));
        assert_eq!(w.edge(4), None);
        assert_eq!(outputs(&w, 1), Some(vec![3]));
        assert_eq!(inputs(&w, 2), Some(vec![3]));
        assert_eq!(edges(&w, 0), Some(vec![3]));
        assert_eq!(w.edge_fault(4, d), Some(fault));
    }
    let (r, w) = fault_of(Edge::new(1, 2, 9), false);
    assert_eq!(r, Err(EdgeFault::GraphMissing));
    assert!(w.node(1).is_none());
    assert!(w.node(2).is_none());
}

#[test]
fn removing_the_last_edge_removes_the_node_and_graph() {
    let mut w = world_with(5);
    assert_eq!(w.insert_edge(3, Edge::new(1, 2, 0)), Ok(()));
    assert_eq!(w.insert_edge(4, Edge::new(2, 1, 0)), Ok(()));
    w.remove_edge(3);
    assert_eq!(w.edge(3), None);
    assert_eq!(outputs(&w, 1), Some(vec![]));
    assert_eq!(inputs(&w, 1), Some(vec![4]));
    assert_eq!(edges(&w, 0), Some(vec![4]));
    w.remove_edge(4);
    assert!(w.node(1).is_none());
    assert!(w.node(2).is_none());
    assert!(w.graph(0).is_none());
    // removing an edge component that is not there changes nothing
    w.remove_edge(4);
    assert!(w.is_alive(4));
}

#[test]
fn reinserting_an_edge_moves_it() {
    let mut w = world_with(5);
    assert_eq!(w.insert_edge(4, Edge::new(1, 2, 0)), Ok(()));
    assert_eq!(w.insert_edge(4, Edge::new(1, 3, 0)), Ok(()));
    assert!(w.node(2).is_none());
    assert_eq!(inputs(&w, 3), Some(vec![4]));
    assert_eq!(outputs(&w, 1), Some(vec![4]));
    assert_eq!(edges(&w, 0), Some(vec![4]));
}

#[test]
fn despawning_a_node_despawns_its_edges() {
    let mut w = world_with(6);
    assert_eq!(w.insert_edge(4, Edge::new(1, 2, 0)), Ok(()));
    assert_eq!(w.insert_edge(5, Edge::new(2, 3, 0)), Ok(()));
    w.despawn(1);
    assert!(!w.is_alive(1));
    assert!(!w.is_alive(4));
    assert!(w.is_alive(5));
    assert_eq!(inputs(&w, 2), Some(vec![]));
    assert_eq!(outputs(&w, 2), Some(vec![5]));
    assert_eq!(edges(&w, 0), Some(vec![5]));
    // despawning what is not alive changes nothing
    w.despawn(1);
    w.despawn(99);
    assert_eq!(w.len(), 6);
    assert!(w.is_alive(2));
}

#[test]
fn despawning_a_graph_despawns_its_edges_and_their_lists() {
    let mut w = world_with(6);
    assert_eq!(w.insert_edge(4, Edge::new(1, 2, 0)), Ok(()));
    assert_eq!(w.insert_edge(5, Edge::new(2, 3, 0)), Ok(()));
    w.despawn(0);
    for x in [0, 4, 5] {
        assert!(!w.is_alive(x));
    }
    for x in [1, 2, 3] {
        assert!(w.is_alive(x));
        assert!(w.node(x).is_none());
    }
}

#[test]
fn despawning_a_node_that_is_a_graph_cascades() {
    // 0 outer graph; 1 a node of 0 that is also a graph; 2, 3 nodes of 1
    let mut w = world_with(8);
    assert_eq!(w.insert_edge(4, Edge::new(2, 3, 1)), Ok(()));
    assert_eq!(w.insert_edge(5, Edge::new(6, 1, 0)), Ok(()));
    assert_eq!(w.insert_edge(7, Edge::new(1, 6, 0)), Ok(()));
    w.despawn(1);
    for x in [1, 4, 5, 7] {
        assert!(!w.is_alive(x));
    }
    assert!(w.node(2).is_none());
    assert!(w.node(6).is_none());
    assert!(w.graph(0).is_none());
}

#[test]
fn labels_clone_and_move() {
    let mut w = world_with(3);
    w.insert_name(0, String::from("Zero"));
    w.set_markers(0, Markers { progress_edge: true, game_start: true, ..Markers::none() });
    w.clone_labels(0, 1);
    assert_eq!(w.name(1), Some(&String::from("Zero")));
    assert_eq!(w.markers(1), Markers { progress_edge: true, ..Markers::none() });
    w.move_labels(0, 2);
    assert_eq!(w.name(0), None);
    assert_eq!(w.name(2), Some(&String::from("Zero")));
    assert_eq!(w.markers(0), Markers { game_start: true, ..Markers::none() });
    assert_eq!(w.markers(2), Markers { progress_edge: true, ..Markers::none() });
}

#[test]
fn node_and_graph_components_can_be_inserted_and_removed() {
    let mut w = world_with(5);
    w.insert_node(1);
    assert_eq!(inputs(&w, 1), Some(vec![]));
    w.insert_graph(0);
    assert_eq!(edges(&w, 0), Some(vec![]));
    assert_eq!(w.insert_edge(4, Edge::new(1, 2, 0)), Ok(()));
    w.remove_node(2);
    assert!(w.node(2).is_none());
    assert_eq!(w.edge(4), None);
    assert!(w.is_alive(4));
    assert_eq!(w.insert_edge(4, Edge::new(1, 2, 0)), Ok(()));
    w.remove_graph(0);
    assert!(w.graph(0).is_none());
    assert_eq!(w.edge(4), None);
    assert_eq!(Node::default().inputs().len(), 0);
    assert!(Graph::default().is_empty());
}

#[test]
fn promote_edge_splits_an_edge_around_it() {
    let mut w = world_with(4);
    assert_eq!(w.insert_edge(3, Edge::new(1, 2, 0)), Ok(()));
    w.insert_name(3, String::from("Road"));
    let (i, o) = promote_edge(&mut w, 3);
    assert_eq!((i, o), (4, 5));
    assert_eq!(w.edge(3), None);
    assert_eq!(w.edge(4), Some(Edge::new(1, 3, 0)));
    assert_eq!(w.edge(5), Some(Edge::new(3, 2, 0)));
    assert_eq!(w.name(4), Some(&String::from("Road")));
    assert_eq!(w.name(5), Some(&String::from("Road")));
    assert_eq!(inputs(&w, 3), Some(vec![4]));
    assert_eq!(outputs(&w, 3), Some(vec![5]));
    assert_eq!(outputs(&w, 1), Some(vec![4]));
    assert_eq!(inputs(&w, 2), Some(vec![5]));
    assert_eq!(edges(&w, 0), Some(vec![4, 5]));
}

#[test]
fn promote_edge_on_a_non_edge_only_spawns() {
    let mut w = world_with(2);
    let (i, o) = promote_edge(&mut w, 1);
    assert_eq!((i, o), (2, 3));
    assert_eq!(w.len(), 4);
    assert!(w.is_alive(2) && w.is_alive(3));
    assert_eq!(w.edge(2), None);
    assert!(w.node(1).is_none());
}

#[test]
fn twist_cycle_on_non_edges_despawns_the_new_entities() {
    let mut w = world_with(4);
    assert_eq!(w.insert_edge(3, Edge::new(1, 2, 0)), Ok(()));
    let r = twist_cycle(&mut w, (3, 1));
    assert_eq!(r, ((4, 5), (6, 7)));
    assert_eq!(w.len(), 8);
    for x in 4..8 {
        assert!(!w.is_alive(x));
    }
    assert_eq!(w.edge(3), Some(Edge::new(1, 2, 0)));
    assert_eq!(outputs(&w, 1), Some(vec![3]));
}

#[test]
fn twist_cycle_on_edges_that_are_no_cycle_changes_nothing() {
    let mut w = world_with(6);
    assert_eq!(w.insert_edge(4, Edge::new(1, 2, 0)), Ok(()));
    assert_eq!(w.insert_edge(5, Edge::new(2, 3, 0)), Ok(()));
    twist_cycle(&mut w, (4, 5));
    assert_eq!(w.len(), 10);
    assert_eq!(w.edge(4), Some(Edge::new(1, 2, 0)));
    assert_eq!(w.edge(5), Some(Edge::new(2, 3, 0)));
    assert_eq!(edges(&w, 0), Some(vec![4, 5]));
}

#[test]
fn twist_cycle_puts_a_node_between_the_two_ends() {
    let mut w = world_with(5);
    assert_eq!(w.insert_edge(3, Edge::new(1, 2, 0)), Ok(()));
    assert_eq!(w.insert_edge(4, Edge::new(2, 1, 0)), Ok(()));
    w.insert_name(3, String::from("There"));
    w.insert_name(4, String::from("Back"));
    let ((zi, zo), (oi, oo)) = twist_cycle(&mut w, (3, 4));
    assert_eq!((zi, zo, oi, oo), (5, 6, 7, 8));
    assert!(!w.is_alive(3));
    assert_eq!(w.edge(4), None);
    assert_eq!(w.edge(zi), Some(Edge::new(1, 4, 0)));
    assert_eq!(w.edge(zo), Some(Edge::new(4, 2, 0)));
    assert_eq!(w.edge(oi), Some(Edge::new(2, 4, 0)));
    assert_eq!(w.edge(oo), Some(Edge::new(4, 1, 0)));
    assert_eq!(inputs(&w, 4), Some(vec![5, 7]));
    assert_eq!(outputs(&w, 4), Some(vec![6, 8]));
    assert_eq!(edges(&w, 0), Some(vec![5, 6, 7, 8]));
    assert_eq!(w.name(4), Some(&String::from("There")));
    assert_eq!(w.name(zi), Some(&String::from("There")));
    assert_eq!(w.name(oo), Some(&String::from("Back")));
    assert!(Edge::is_cycle((&Edge::new(1, 2, 0), &Edge::new(2, 1, 0))));
    assert!(!Edge::is_cycle((&Edge::new(1, 2, 0), &Edge::new(2, 1, 5))));
}

#[test]
fn parent_graph_is_found_through_node_edges_or_own_edge() {
    let mut w = world_with(6);
    assert_eq!(w.insert_edge(4, Edge::new(1, 2, 0)), Ok(()));
    assert_eq!(parent_graph(&w, 1), Some(0));
    assert_eq!(parent_graph(&w, 2), Some(0));
    assert_eq!(parent_graph(&w, 4), Some(0));
    assert_eq!(parent_graph(&w, 3), None);
    assert!(in_graph(&w, 0, 1));
    assert!(!in_graph(&w, 3, 1));
    assert!(!in_graph(&w, 0, 3));
    assert_eq!(infer_graph(&w, 4), Some(0));
    assert_eq!(infer_graph(&w, 1), None);
    assert_eq!(edge_input(&w, 4), Some(1));
    assert_eq!(edge_output(&w, 4), Some(2));
    assert_eq!(edge_graph(&w, 4), Some(0));
    assert_eq!(edge_input(&w, 1), None);
    assert_eq!(node_inputs(&w, 2).cloned(), Some(vec![4]));
    assert_eq!(node_outputs(&w, 1).cloned(), Some(vec![4]));
    assert_eq!(node_outputs(&w, 3), None);
    assert_eq!(graph(&w, 0).cloned(), Some(vec![4]));
    assert_eq!(Node::entity_inputs(&w, 2), vec![4]);
    assert_eq!(Node::entity_outputs(&w, 2), Vec::<u64>::new());
    assert_eq!(Node::entity_inputs_outputs(&w, 1), (vec![], vec![4]));
    assert_eq!(Node::entity_connections(&w, 1), vec![4]);
    assert_eq!(Edge::entity_input(&w, 4), Some(1));
    assert_eq!(Edge::entity_output(&w, 4), Some(2));
    assert_eq!(Edge::entity_graph(&w, 4), Some(0));
    assert_eq!(Graph::entity_edges(&w, 0), vec![4]);
    assert_eq!(Graph::entity_edges(&w, 1), Vec::<u64>::new());
}

#[test]
fn spawn_edge_joins_the_graph_of_its_input() {
    let mut w = world_with(4);
    assert_eq!(w.insert_edge(3, Edge::new(1, 2, 0)), Ok(()));
    let e = Edge::spawn_edge(&mut w, 2, 1);
    assert_eq!(e, 4);
    assert_eq!(w.edge(4), Some(Edge::new(2, 1, 0)));
    assert_eq!(w.len(), 5);
}

#[test]
fn spawn_edge_without_a_graph_spawns_one() {
    let mut w = world_with(2);
    let e = Edge::spawn_edge(&mut w, 0, 1);
    assert_eq!(e, 2);
    assert_eq!(w.len(), 4);
    assert_eq!(w.edge(2), Some(Edge::new(0, 1, 3)));
    assert_eq!(edges(&w, 3), Some(vec![2]));
}

#[test]
fn infer_graph_assign_leaves_a_proper_edge_as_it_is() {
    let mut w = world_with(4);
    assert_eq!(w.insert_edge(3, Edge::new(1, 2, 0)), Ok(()));
    EdgeGraph::infer_graph_assign(&mut w, 3);
    assert_eq!(w.edge(3), Some(Edge::new(1, 2, 0)));
    assert_eq!(w.len(), 4);
    assert_eq!(edges(&w, 0), Some(vec![3]));
}

#[test]
fn infer_graph_assign_spawns_a_graph_when_none_is_found() {
    let mut w = world_with(3);
    // 0 is an entity that is not yet an edge: nothing to assign to
    EdgeGraph::infer_graph_assign(&mut w, 0);
    assert_eq!(w.len(), 4);
    assert_eq!(w.edge(0), None);
}

#[test]
fn flattening_moves_a_subgraph_into_its_parent() {
    // 0 outer graph; 1 a node of 0 that is itself a graph; 2 before 1, 3 after 1;
    // 4 and 5 inside 1.
    let mut w = world_with(10);
    assert_eq!(w.insert_edge(6, Edge::new(2, 1, 0)), Ok(()));
    assert_eq!(w.insert_edge(7, Edge::new(1, 3, 0)), Ok(()));
    assert_eq!(w.insert_edge(8, Edge::new(4, 5, 1)), Ok(()));
    Graph::try_flatten_with(&mut w, 1, 4, 5);
    assert_eq!(w.edge(8), Some(Edge::new(4, 5, 0)));
    assert_eq!(w.edge(6), Some(Edge::new(2, 4, 0)));
    assert_eq!(w.edge(7), Some(Edge::new(5, 3, 0)));
    assert!(w.graph(1).is_none());
    assert!(w.node(1).is_none());
    assert_eq!(edges(&w, 0), Some(vec![8, 6, 7]));
}

#[test]
fn flattening_needs_proxies_inside_the_subgraph() {
    let mut w = world_with(10);
    assert_eq!(w.insert_edge(6, Edge::new(2, 1, 0)), Ok(()));
    assert_eq!(w.insert_edge(8, Edge::new(4, 5, 1)), Ok(()));
    Graph::try_flatten_with(&mut w, 1, 4, 3);
    assert_eq!(w.edge(8), Some(Edge::new(4, 5, 1)));
    assert_eq!(w.edge(6), Some(Edge::new(2, 1, 0)));
}

fn shown(id: u64) -> String {
    id.to_string()
}

#[test]
fn node_debug_pictures_a_node_and_its_neighbours() {
    let mut w = world_with(7);
    assert_eq!(w.insert_edge(4, Edge::new(2, 3, 1)), Ok(()));
    assert_eq!(w.insert_edge(5, Edge::new(3, 6, 1)), Ok(()));
    let lines = Node::debug(&w, 3);
    assert_eq!(
        lines,
        vec![
            format!("Graph {}", shown(1)),
            String::from("┬"),
            format!("├ Node {}", shown(2)),
            format!("└ Node {}", shown(3)),
            format!("  └ Node {}", shown(6)),
        ]
    );
}

#[test]
fn node_debug_marks_the_last_node_after() {
    let mut w = world_with(8);
    assert_eq!(w.insert_edge(5, Edge::new(2, 3, 1)), Ok(()));
    assert_eq!(w.insert_edge(6, Edge::new(2, 4, 1)), Ok(()));
    let lines = Node::debug(&w, 2);
    assert_eq!(
        lines,
        vec![
            format!("Graph {}", shown(1)),
            String::from("┬"),
            format!("└ Node {}", shown(2)),
            format!("  ├ Node {}", shown(3)),
            format!("  └ Node {}", shown(4)),
        ]
    );
}

#[test]
fn inserting_then_removing_an_edge_gives_the_lists_back() {
    let mut w = world_with(6);
    assert_eq!(w.insert_edge(4, Edge::new(1, 2, 0)), Ok(()));
    assert_eq!(w.insert_edge(5, Edge::new(2, 2, 0)), Ok(()));
    w.remove_edge(5);
    assert_eq!(outputs(&w, 1), Some(vec![4]));
    assert_eq!(inputs(&w, 2), Some(vec![4]));
    assert_eq!(outputs(&w, 2), Some(vec![]));
    assert_eq!(edges(&w, 0), Some(vec![4]));
    assert_eq!(w.edge(5), None);
}

#[test]
fn in_graph_sees_every_edge_of_a_node() {
    let mut w = world_with(7);
    assert_eq!(w.insert_edge(4, Edge::new(1, 2, 0)), Ok(()));
    assert_eq!(w.insert_edge(5, Edge::new(1, 3, 6)), Ok(()));
    assert_eq!(parent_graph(&w, 1), Some(0));
    assert!(in_graph(&w, 0, 1));
    assert!(in_graph(&w, 6, 1));
    assert!(in_graph(&w, 6, 3));
    assert!(!in_graph(&w, 0, 3));
    assert!(in_graph(&w, 6, 5));
    assert!(!in_graph(&w, 0, 5));
}

#[test]
fn spawn_edge_from_an_edge_keeps_the_new_edge() {
    let mut w = world_with(4);
    assert_eq!(w.insert_edge(3, Edge::new(1, 2, 0)), Ok(()));
    let e = Edge::spawn_edge(&mut w, 3, 1);
    assert_eq!(e, 4);
    assert_eq!(w.edge(4), Some(Edge::new(3, 1, 0)));
    assert_eq!(outputs(&w, 3), Some(vec![4]));
    assert_eq!(inputs(&w, 1), Some(vec![4]));
    assert_eq!(w.edge(3), Some(Edge::new(1, 2, 0)));
    assert_eq!(edges(&w, 0), Some(vec![3, 4]));
}

#[test]
fn infer_graph_assign_keeps_an_edge_whose_input_became_an_edge() {
    let mut w = world_with(6);
    assert_eq!(w.insert_edge(3, Edge::new(1, 2, 0)), Ok(()));
    assert_eq!(w.insert_edge(1, Edge::new(4, 5, 0)), Ok(()));
    EdgeGraph::infer_graph_assign(&mut w, 3);
    assert_eq!(w.edge(3), Some(Edge::new(1, 2, 0)));
    assert_eq!(w.len(), 6);
}

#[test]
fn link_edge_checks_only_that_the_ends_live() {
    let mut w = world_with(5);
    assert_eq!(w.insert_edge(3, Edge::new(1, 2, 0)), Ok(()));
    assert!(w.link_edge(4, Edge::new(3, 1, 0)));
    assert_eq!(w.edge(4), Some(Edge::new(3, 1, 0)));
    assert!(!w.link_edge(4, Edge::new(3, 9, 0)));
    assert_eq!(w.edge(4), None);
    assert_eq!(outputs(&w, 3), None);
    assert!(!w.link_edge(3, Edge::new(3, 2, 0)));
    assert_eq!(w.edge(3), None);
    assert!(w.graph(0).is_none());
}

#[test]
fn despawning_an_edge_removes_the_nodes_it_leaves_empty() {
    let mut w = world_with(6);
    assert_eq!(w.insert_edge(4, Edge::new(1, 2, 0)), Ok(()));
    assert_eq!(w.insert_edge(5, Edge::new(2, 3, 0)), Ok(()));
    w.despawn(4);
    assert!(w.node(1).is_none());
    assert_eq!(inputs(&w, 2), Some(vec![]));
    assert_eq!(outputs(&w, 2), Some(vec![5]));
    assert_eq!(edges(&w, 0), Some(vec![5]));
    w.despawn(5);
    assert!(w.node(2).is_none());
    assert!(w.node(3).is_none());
    assert!(w.graph(0).is_none());
}

#[test]
fn inserting_one_end_moves_only_that_end() {
    let mut w = world_with(8);
    assert_eq!(w.insert_edge(4, Edge::new(1, 2, 0)), Ok(()));
    assert_eq!(w.insert_edge(5, Edge::new(2, 3, 0)), Ok(()));
    EdgeInput(3).insert(&mut w, 4);
    assert_eq!(w.edge(4), Some(Edge::new(3, 2, 0)));
    assert!(w.node(1).is_none());
    assert_eq!(outputs(&w, 3), Some(vec![4]));
    EdgeOutput(5).insert(&mut w, 4);
    assert_eq!(w.edge(4), Some(Edge::new(3, 5, 0)));
    assert_eq!(inputs(&w, 5), Some(vec![4]));
    EdgeGraph(6).insert(&mut w, 4);
    assert_eq!(w.edge(4), Some(Edge::new(3, 5, 6)));
    assert_eq!(edges(&w, 6), Some(vec![4]));
    assert_eq!(edges(&w, 0), Some(vec![5]));
    EdgeOutput(4).insert(&mut w, 4);
    assert_eq!(w.edge(4), None);
    assert!(w.graph(6).is_none());
    EdgeInput(9).insert(&mut w, 5);
    assert_eq!(w.edge(5), None);
}
