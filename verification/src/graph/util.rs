//! General utilities for reading the [`Graph`]s, [`Node`]s and [`Edge`]s of
//! a world.
use vstd::prelude::*;

use crate::graph::components::{copy_ids, Edge, Graph, GraphWorld, Node};
use crate::graph::model::{belongs_to, edge_of, graph_of, node_of, EntityState};

verus! {

/// The graph of the first entity of `s` that carries an edge component.
pub open spec fn first_edge_graph(w: Seq<EntityState>, s: Seq<u64>) -> Option<u64>
    decreases s.len(),
{
    if s.len() == 0 {
        None
    } else {
        match edge_of(w, s[0]) {
            Some(d) => Some(d.graph),
            None => first_edge_graph(w, s.drop_first()),
        }
    }
}

/// The inputs, then the outputs, of the node of `e`; nothing without a node.
pub open spec fn node_edges(w: Seq<EntityState>, e: u64) -> Seq<u64> {
    match node_of(w, e) {
        Some(n) => n.inputs + n.outputs,
        None => Seq::empty(),
    }
}

/// The entities whose edge components place `e` in a graph: the inputs and
/// outputs of its node, then `e` itself.
pub open spec fn graph_candidates(w: Seq<EntityState>, e: u64) -> Seq<u64> {
    node_edges(w, e).push(e)
}

/// The graph of `e`: that of the first edge among the inputs and outputs of
/// its node, else that of its own edge component.
pub open spec fn parent_graph_of(w: Seq<EntityState>, e: u64) -> Option<u64> {
    first_edge_graph(w, graph_candidates(w, e))
}

/// `e` is part of graph `g`: `e` is an edge of `g`, or an edge of `g` starts
/// or ends at the node of `e`. A node may be part of several graphs.
pub open spec fn in_graph_of(w: Seq<EntityState>, g: u64, e: u64) -> bool {
    exists|i: int|
        0 <= i < graph_candidates(w, e).len() && #[trigger] belongs_to(w, graph_candidates(w, e)[i], g)
}

/// The graph of the input node of edge `e`.
pub open spec fn inferred_graph_of(w: Seq<EntityState>, e: u64) -> Option<u64> {
    match edge_of(w, e) {
        Some(d) => parent_graph_of(w, d.input),
        None => None,
    }
}

/// Worlds that agree on every edge component agree on the graph of the
/// first edge of any list.
pub proof fn lemma_first_edge_graph_same(w: Seq<EntityState>, w2: Seq<EntityState>, s: Seq<u64>)
    requires
        forall|x: u64| #[trigger] edge_of(w2, x) == edge_of(w, x),
    ensures
        first_edge_graph(w2, s) == first_edge_graph(w, s),
    decreases s.len(),
{
    if s.len() > 0 {
        assert(edge_of(w2, s[0]) == edge_of(w, s[0]));
        lemma_first_edge_graph_same(w, w2, s.drop_first());
    }
}

/// The graph of the first edge of a list is the graph of some edge of it.
pub proof fn lemma_first_edge_graph_source(w: Seq<EntityState>, s: Seq<u64>)
    requires
        first_edge_graph(w, s) is Some,
    ensures
        exists|i: int|
            0 <= i < s.len() && #[trigger] edge_of(w, s[i]) is Some && edge_of(w, s[i])->0.graph
                == first_edge_graph(w, s)->0,
    decreases s.len(),
{
    match edge_of(w, s[0]) {
        Some(d) => {
            assert(edge_of(w, s[0]) is Some);
        },
        None => {
            let t = s.drop_first();
            lemma_first_edge_graph_source(w, t);
            let i = choose|i: int|
                0 <= i < t.len() && #[trigger] edge_of(w, t[i]) is Some && edge_of(w, t[i])->0.graph
                    == first_edge_graph(w, t)->0;
            assert(s[i + 1] == t[i]);
        },
    }
}

/// The graph of the first entity of `s` that carries an edge component.
fn first_edge_graph_in(world: &GraphWorld, s: &Vec<u64>) -> (r: Option<u64>)
    ensures
        r == first_edge_graph(world@, s@),
{
    let mut i: usize = 0;
    assert(s@.subrange(0, s@.len() as int) =~= s@);
    while i < s.len()
        invariant
            i <= s@.len(),
            first_edge_graph(world@, s@) == first_edge_graph(world@, s@.subrange(i as int, s@.len() as int)),
        decreases s@.len() - i,
    {
        let ghost rest = s@.subrange(i as int, s@.len() as int);
        assert(rest.drop_first() =~= s@.subrange(i + 1, s@.len() as int));
        match world.edge(s[i]) {
            Some(d) => {
                return Some(d.graph);
            },
            None => {},
        }
        i = i + 1;
    }
    assert(s@.subrange(i as int, s@.len() as int).len() == 0);
    None
}

/// The edges of the graph component of `e`, if it has one.
pub fn graph(world: &GraphWorld, e: u64) -> (r: Option<&Vec<u64>>)
    ensures
        match r {
            Some(v) => graph_of(world@, e) == Some(v@),
            None => graph_of(world@, e) is None,
        },
{
    match world.graph(e) {
        Some(g) => Some(g.edges()),
        None => None,
    }
}

/// The input node of the edge component of `e`, if it has one.
pub fn edge_input(world: &GraphWorld, e: u64) -> (r: Option<u64>)
    ensures
        r == match edge_of(world@, e) {
            Some(d) => Some(d.input),
            None => None::<u64>,
        },
{
    match world.edge(e) {
        Some(d) => Some(d.input),
        None => None,
    }
}

/// The output node of the edge component of `e`, if it has one.
pub fn edge_output(world: &GraphWorld, e: u64) -> (r: Option<u64>)
    ensures
        r == match edge_of(world@, e) {
            Some(d) => Some(d.output),
            None => None::<u64>,
        },
{
    match world.edge(e) {
        Some(d) => Some(d.output),
        None => None,
    }
}

/// The graph of the edge component of `e`, if it has one.
pub fn edge_graph(world: &GraphWorld, e: u64) -> (r: Option<u64>)
    ensures
        r == match edge_of(world@, e) {
            Some(d) => Some(d.graph),
            None => None::<u64>,
        },
{
    match world.edge(e) {
        Some(d) => Some(d.graph),
        None => None,
    }
}

/// The input edges of the node component of `e`, if it has one.
pub fn node_inputs(world: &GraphWorld, e: u64) -> (r: Option<&Vec<u64>>)
    ensures
        match r {
            Some(v) => node_of(world@, e) is Some && v@ == node_of(world@, e)->0.inputs,
            None => node_of(world@, e) is None,
        },
{
    match world.node(e) {
        Some(n) => Some(n.inputs()),
        None => None,
    }
}

/// The output edges of the node component of `e`, if it has one.
pub fn node_outputs(world: &GraphWorld, e: u64) -> (r: Option<&Vec<u64>>)
    ensures
        match r {
            Some(v) => node_of(world@, e) is Some && v@ == node_of(world@, e)->0.outputs,
            None => node_of(world@, e) is None,
        },
{
    match world.node(e) {
        Some(n) => Some(n.outputs()),
        None => None,
    }
}

/// Infers the graph of edge `e` from the node it starts at.
pub fn infer_graph(world: &GraphWorld, e: u64) -> (r: Option<u64>)
    ensures
        r == inferred_graph_of(world@, e),
{
    match edge_input(world, e) {
        Some(input) => parent_graph(world, input),
        None => None,
    }
}

/// The inputs and outputs of the node of `e`, then `e` itself.
fn graph_candidates_in(world: &GraphWorld, e: u64) -> (r: Vec<u64>)
    ensures
        r@ == graph_candidates(world@, e),
{
    let mut candidates: Vec<u64> = Vec::new();
    match world.node(e) {
        Some(n) => {
            candidates = copy_ids(n.inputs());
            let mut outs = copy_ids(n.outputs());
            candidates.append(&mut outs);
        },
        None => {},
    }
    candidates.push(e);
    assert(candidates@ =~= graph_candidates(world@, e));
    candidates
}

/// The graph that `e` belongs to, whether `e` is a node or an edge.
pub fn parent_graph(world: &GraphWorld, e: u64) -> (r: Option<u64>)
    ensures
        r == parent_graph_of(world@, e),
{
    let candidates = graph_candidates_in(world, e);
    first_edge_graph_in(world, &candidates)
}

/// Whether `entity` is a part of the graph `graph_entity`: as an edge of it,
/// or as a node that one of its edges starts or ends at.
pub fn in_graph(world: &GraphWorld, graph_entity: u64, entity: u64) -> (r: bool)
    ensures
        r == in_graph_of(world@, graph_entity, entity),
{
    let candidates = graph_candidates_in(world, entity);
    let mut i: usize = 0;
    while i < candidates.len()
        invariant
            i <= candidates@.len(),
            candidates@ == graph_candidates(world@, entity),
            forall|j: int| 0 <= j < i ==> !#[trigger] belongs_to(world@, candidates@[j], graph_entity),
        decreases candidates@.len() - i,
    {
        match world.edge(candidates[i]) {
            Some(d) => {
                if d.graph == graph_entity {
                    assert(belongs_to(world@, candidates@[i as int], graph_entity));
                    return true;
                }
            },
            None => {},
        }
        assert(!belongs_to(world@, candidates@[i as int], graph_entity));
        i = i + 1;
    }
    false
}

impl Node {
    /// The input edges of the node of `entity`; none without a node.
    pub fn entity_inputs(world: &GraphWorld, entity: u64) -> (r: Vec<u64>)
        ensures
            r@ == match node_of(world@, entity) {
                Some(n) => n.inputs,
                None => Seq::<u64>::empty(),
            },
    {
        match world.node(entity) {
            Some(n) => copy_ids(n.inputs()),
            None => Vec::new(),
        }
    }

    /// The output edges of the node of `entity`; none without a node.
    pub fn entity_outputs(world: &GraphWorld, entity: u64) -> (r: Vec<u64>)
        ensures
            r@ == match node_of(world@, entity) {
                Some(n) => n.outputs,
                None => Seq::<u64>::empty(),
            },
    {
        match world.node(entity) {
            Some(n) => copy_ids(n.outputs()),
            None => Vec::new(),
        }
    }

    /// The input and the output edges of the node of `entity`.
    pub fn entity_inputs_outputs(world: &GraphWorld, entity: u64) -> (r: (Vec<u64>, Vec<u64>))
        ensures
            r.0@ == match node_of(world@, entity) {
                Some(n) => n.inputs,
                None => Seq::<u64>::empty(),
            },
            r.1@ == match node_of(world@, entity) {
                Some(n) => n.outputs,
                None => Seq::<u64>::empty(),
            },
    {
        (Node::entity_inputs(world, entity), Node::entity_outputs(world, entity))
    }

    /// Every edge of the node of `entity`, inputs first.
    pub fn entity_connections(world: &GraphWorld, entity: u64) -> (r: Vec<u64>)
        ensures
            r@ == node_edges(world@, entity),
    {
        let mut r = Node::entity_inputs(world, entity);
        let mut outs = Node::entity_outputs(world, entity);
        r.append(&mut outs);
        assert(r@ =~= node_edges(world@, entity));
        r
    }
}

impl Edge {
    /// The input node of the edge of `entity`, if it has one.
    pub fn entity_input(world: &GraphWorld, entity: u64) -> (r: Option<u64>)
        ensures
            r == match edge_of(world@, entity) {
                Some(d) => Some(d.input),
                None => None::<u64>,
            },
    {
        edge_input(world, entity)
    }

    /// The output node of the edge of `entity`, if it has one.
    pub fn entity_output(world: &GraphWorld, entity: u64) -> (r: Option<u64>)
        ensures
            r == match edge_of(world@, entity) {
                Some(d) => Some(d.output),
                None => None::<u64>,
            },
    {
        edge_output(world, entity)
    }

    /// The graph of the edge of `entity`, if it has one.
    pub fn entity_graph(world: &GraphWorld, entity: u64) -> (r: Option<u64>)
        ensures
            r == match edge_of(world@, entity) {
                Some(d) => Some(d.graph),
                None => None::<u64>,
            },
    {
        edge_graph(world, entity)
    }
}

impl Graph {
    /// The edges of the graph of `entity`; none without a graph.
    pub fn entity_edges(world: &GraphWorld, entity: u64) -> (r: Vec<u64>)
        ensures
            r@ == match graph_of(world@, entity) {
                Some(es) => es,
                None => Seq::<u64>::empty(),
            },
    {
        match world.graph(entity) {
            Some(g) => copy_ids(g.edges()),
            None => Vec::new(),
        }
    }
}

} // verus!
