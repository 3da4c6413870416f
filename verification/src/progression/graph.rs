//! The markers of the progression graph, and the default graph a game
//! starts with.
use vstd::prelude::*;

use crate::graph::commands::{twist_cycle, twisting};
use crate::graph::components::{Edge, GraphWorld};
use crate::graph::lemmas::lemma_inserting_edge_alive;
use crate::graph::model::{
    fresh_entity, inserting_edge, inserting_graph, with_markers, with_name, EntityState,
};

verus! {

/// The marker components that a progression entity may carry.
///
/// `progress_edge` marks an edge of forward progress; it is the one marker
/// that can be cloned onto another entity.
#[derive(Clone, Copy, Debug, PartialEq, Eq, Structural)]
pub struct Markers {
    /// The entity is a progression graph.
    pub progression_graph: bool,
    /// The entity is the start of the game.
    pub game_start: bool,
    /// The entity is the end of the game.
    pub game_end: bool,
    /// The entity is an edge of forward progress.
    pub progress_edge: bool,
}

impl Markers {
    /// No marker at all.
    pub open spec fn spec_none() -> Markers {
        Markers { progression_graph: false, game_start: false, game_end: false, progress_edge: false }
    }

    /// No marker at all.
    pub fn none() -> (m: Markers)
        ensures
            m == Markers::spec_none(),
    {
        Markers { progression_graph: false, game_start: false, game_end: false, progress_edge: false }
    }
}

/// `w` with a fresh entity spawned, named `name` and carrying `markers`.
pub open spec fn spawning_labelled(w: Seq<EntityState>, name: Seq<char>, markers: Markers) -> Seq<EntityState> {
    let x = w.len() as u64;
    with_markers(with_name(w.push(fresh_entity()), x, Some(name)), x, markers)
}

/// The world after [`spawn_default_graph`]: a progression graph, the game
/// start and the game end, a forward progress edge from start to end and an
/// edge back, and that cycle twisted around a new node.
pub open spec fn default_graph_world(w: Seq<EntityState>) -> Seq<EntityState> {
    let graph = w.len() as u64;
    let start = (w.len() + 1) as u64;
    let end = (w.len() + 2) as u64;
    let forward = (w.len() + 3) as u64;
    let backward = (w.len() + 4) as u64;
    let none = Markers::spec_none();
    let w1 = inserting_graph(
        spawning_labelled(w, "Progression Graph"@, Markers { progression_graph: true, ..none }),
        graph,
    );
    let w2 = spawning_labelled(w1, "Game Start"@, Markers { game_start: true, ..none });
    let w3 = spawning_labelled(w2, "Game End"@, Markers { game_end: true, ..none });
    let w4 = inserting_edge(w3.push(fresh_entity()), forward, Edge { input: start, output: end, graph });
    let w5 = with_name(
        with_markers(w4, forward, Markers { progress_edge: true, ..w4[forward as int].markers }),
        forward,
        Some("Forward Progress"@),
    );
    let w6 = inserting_edge(w5.push(fresh_entity()), backward, Edge { input: end, output: start, graph });
    twisting(w6, forward, backward)
}

/// Spawns a named entity carrying `markers`.
fn spawn_labelled(world: &mut GraphWorld, name: &str, markers: Markers) -> (x: u64)
    requires
        old(world).wf(),
        old(world)@.len() < u64::MAX,
    ensures
        x == old(world)@.len(),
        final(world)@ == spawning_labelled(old(world)@, name@, markers),
        final(world).wf(),
{
    let x = world.spawn();
    world.insert_name(x, String::from_str(name));
    world.set_markers(x, markers);
    x
}

/// Spawns the default progression graph and returns its entity.
pub fn spawn_default_graph(world: &mut GraphWorld) -> (graph: u64)
    requires
        old(world).wf(),
        old(world)@.len() + 9 <= u64::MAX,
    ensures
        graph == old(world)@.len(),
        final(world)@ == default_graph_world(old(world)@),
        final(world).wf(),
{
    let none = Markers::none();
    let graph = spawn_labelled(world, "Progression Graph", Markers { progression_graph: true, ..none });
    world.insert_graph(graph);
    let start = spawn_labelled(world, "Game Start", Markers { game_start: true, ..none });
    let end = spawn_labelled(world, "Game End", Markers { game_end: true, ..none });
    let forward = world.spawn();
    let ghost w3 = world@;
    let _ = world.insert_edge(forward, Edge::new(start, end, graph));
    proof {
        lemma_inserting_edge_alive(w3, forward, Edge { input: start, output: end, graph });
    }
    let mut marks = world.markers(forward);
    marks.progress_edge = true;
    world.set_markers(forward, marks);
    world.insert_name(forward, String::from_str("Forward Progress"));
    let backward = world.spawn();
    let _ = world.insert_edge(backward, Edge::new(end, start, graph));
    let _ = twist_cycle(world, (forward, backward));
    graph
}

} // verus!
