//! Progression through the game, kept as a graph.
use vstd::prelude::*;

pub mod graph;

use crate::graph::components::GraphWorld;
use crate::progression::graph::{default_graph_world, spawn_default_graph};

verus! {

/// The global progression manager: the progression graph, once spawned.
pub struct ProgressionManager {
    graph: Option<u64>,
}

impl View for ProgressionManager {
    type V = Option<u64>;

    /// The entity of the progression graph, once spawned.
    closed spec fn view(&self) -> Option<u64> {
        self.graph
    }
}

impl Default for ProgressionManager {
    /// A manager without a graph.
    fn default() -> (m: ProgressionManager)
        ensures
            m@ is None,
    {
        ProgressionManager { graph: None }
    }
}

impl ProgressionManager {
    /// The entity of the progression graph, once spawned.
    pub fn graph(&self) -> (r: Option<u64>)
        ensures
            r == self@,
    {
        self.graph
    }

    /// Spawns a new default progression graph if there isn't already one.
    pub fn or_default(&mut self, world: &mut GraphWorld)
        requires
            old(world).wf(),
            old(self)@ is None ==> old(world)@.len() + 9 <= u64::MAX,
        ensures
            final(world).wf(),
            old(self)@ is Some ==> final(self)@ == old(self)@ && final(world)@ == old(world)@,
            old(self)@ is None ==> final(self)@ == Some(old(world)@.len() as u64)
                && final(world)@ == default_graph_world(old(world)@),
    {
        if self.graph.is_none() {
            self.graph = Some(spawn_default_graph(world));
        }
    }
}

} // verus!
