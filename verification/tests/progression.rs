use sentinel::graph::components::{Edge, GraphWorld};
use sentinel::progression::graph::{spawn_default_graph, Markers};
use sentinel::progression::ProgressionManager;

fn names(w: &GraphWorld, x: u64) -> Option<String> {
    w.name(x).cloned()
}

#[test]
fn default_graph_twists_start_and_end_around_a_middle_node() {
    let mut w = GraphWorld::new();
    let g = spawn_default_graph(&mut w);
    assert_eq!(g, 0);
    assert_eq!(w.len(), 9);
    assert_eq!(names(&w, 0), Some(String::from("Progression Graph")));
    assert_eq!(w.markers(0), Markers { progression_graph: true, ..Markers::none() });
    assert_eq!(names(&w, 1), Some(String::from("Game Start")));
    assert_eq!(w.markers(1), Markers { game_start: true, ..Markers::none() });
    assert_eq!(names(&w, 2), Some(String::from("Game End")));
    assert_eq!(w.markers(2), Markers { game_end: true, ..Markers::none() });
    // the forward edge is despawned; the backward edge became the middle node
    assert!(!w.is_alive(3));
    assert_eq!(w.edge(4), None);
    assert_eq!(names(&w, 4), Some(String::from("Forward Progress")));
    assert_eq!(w.markers(4), Markers { progress_edge: true, ..Markers::none() });
    assert_eq!(w.edge(5), Some(Edge::new(1, 4, 0)));
    assert_eq!(w.edge(6), Some(Edge::new(4, 2, 0)));
    assert_eq!(w.edge(7), Some(Edge::new(2, 4, 0)));
    assert_eq!(w.edge(8), Some(Edge::new(4, 1, 0)));
    assert_eq!(names(&w, 5), Some(String::from("Forward Progress")));
    assert_eq!(names(&w, 6), Some(String::from("Forward Progress")));
    assert_eq!(names(&w, 7), None);
    assert_eq!(w.markers(6), Markers { progress_edge: true, ..Markers::none() });
    assert_eq!(w.markers(7), Markers::none());
    assert_eq!(w.node(4).unwrap().inputs().clone(), vec![5, 7]);
    assert_eq!(w.node(4).unwrap().outputs().clone(), vec![6, 8]);
    assert_eq!(w.node(1).unwrap().inputs().clone(), vec![8]);
    assert_eq!(w.node(1).unwrap().outputs().clone(), vec![5]);
    assert_eq!(w.graph(0).unwrap().edges().clone(), vec![5, 6, 7, 8]);
}

#[test]
fn or_default_spawns_the_graph_once() {
    let mut w = GraphWorld::new();
    w.spawn();
    let mut m = ProgressionManager::default();
    assert_eq!(m.graph(), None);
    m.or_default(&mut w);
    assert_eq!(m.graph(), Some(1));
    assert_eq!(w.len(), 10);
    m.or_default(&mut w);
    assert_eq!(m.graph(), Some(1));
    assert_eq!(w.len(), 10);
}
