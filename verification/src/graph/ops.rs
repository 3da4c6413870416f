//! Operations that rewire whole graphs: flattening a node that is itself a
//! graph, assigning an edge to the graph inferred from its input, and
//! spawning an edge.
use vstd::prelude::*;

use crate::graph::components::{Edge, Graph, GraphWorld};
use crate::graph::lemmas::{lemma_linking, lemma_spawn};
use crate::graph::model::{
    alive, belongs_to, edge_of, fresh_entity, graph_of, linking, node_of, same_alive, wf,
    EntityState,
};
use crate::graph::util::{
    graph_candidates, in_graph, in_graph_of, infer_graph, inferred_graph_of,
    lemma_first_edge_graph_same, lemma_first_edge_graph_source, parent_graph, parent_graph_of,
};

verus! {

/// Which end of an edge a rewiring changes.
#[derive(Clone, Copy, Debug, PartialEq, Eq, Structural)]
pub enum EdgeEnd {
    /// The node the edge starts from.
    Input,
    /// The node the edge ends at.
    Output,
    /// The graph the edge belongs to.
    Graph,
}

/// Edge `d` with the given end moved to `t`.
pub open spec fn retargeted(d: Edge, end: EdgeEnd, t: u64) -> Edge {
    match end {
        EdgeEnd::Input => Edge { input: t, ..d },
        EdgeEnd::Output => Edge { output: t, ..d },
        EdgeEnd::Graph => Edge { graph: t, ..d },
    }
}

/// The world after the given end of the edge of `e` is moved to `t`, by
/// linking the edge to its changed ends; an entity without an edge
/// component is left as it is.
pub open spec fn retargeting(w: Seq<EntityState>, e: u64, end: EdgeEnd, t: u64) -> Seq<EntityState> {
    match edge_of(w, e) {
        Some(d) => linking(w, e, retargeted(d, end, t)),
        None => w,
    }
}

/// The world after the given end of each edge of `es`, in order, is moved
/// to `t`.
pub open spec fn retargeting_all(w: Seq<EntityState>, es: Seq<u64>, end: EdgeEnd, t: u64) -> Seq<
    EntityState,
>
    decreases es.len(),
{
    if es.len() == 0 {
        w
    } else {
        retargeting(retargeting_all(w, es.drop_last(), end, t), es.last(), end, t)
    }
}

/// The edges of the graph component of `g`; none without one.
pub open spec fn graph_edges(w: Seq<EntityState>, g: u64) -> Seq<u64> {
    match graph_of(w, g) {
        Some(es) => es,
        None => Seq::empty(),
    }
}

/// The input edges of the node of `x`; none without a node.
pub open spec fn node_input_edges(w: Seq<EntityState>, x: u64) -> Seq<u64> {
    match node_of(w, x) {
        Some(n) => n.inputs,
        None => Seq::empty(),
    }
}

/// The output edges of the node of `x`; none without a node.
pub open spec fn node_output_edges(w: Seq<EntityState>, x: u64) -> Seq<u64> {
    match node_of(w, x) {
        Some(n) => n.outputs,
        None => Seq::empty(),
    }
}

/// Flattening applies: both proxies are part of the graph of `graph_node`,
/// and `graph_node` itself belongs to a graph.
pub open spec fn flattenable(w: Seq<EntityState>, graph_node: u64, input_node: u64, output_node: u64) -> bool {
    &&& in_graph_of(w, graph_node, input_node)
    &&& in_graph_of(w, graph_node, output_node)
    &&& parent_graph_of(w, graph_node) is Some
}

/// The world after [`Graph::try_flatten_with`]: when it applies, the edges
/// of the subgraph of `graph_node` move to the graph of `graph_node`, then
/// the edges into `graph_node` are redirected to `input_node`, then the
/// edges out of `graph_node` start from `output_node` instead. Otherwise
/// nothing changes.
pub open spec fn flattening(w: Seq<EntityState>, graph_node: u64, input_node: u64, output_node: u64) -> Seq<EntityState> {
    if flattenable(w, graph_node, input_node, output_node) {
        let g = parent_graph_of(w, graph_node)->0;
        let w1 = retargeting_all(w, graph_edges(w, graph_node), EdgeEnd::Graph, g);
        let w2 = retargeting_all(w1, node_input_edges(w1, graph_node), EdgeEnd::Output, input_node);
        retargeting_all(w2, node_output_edges(w2, graph_node), EdgeEnd::Input, output_node)
    } else {
        w
    }
}

/// Moves the given end of the edge of `e` to `t`.
fn retarget(world: &mut GraphWorld, e: u64, end: EdgeEnd, t: u64)
    requires
        old(world).wf(),
    ensures
        final(world)@ == retargeting(old(world)@, e, end, t),
        final(world).wf(),
{
    match world.edge(e) {
        Some(d) => {
            assert(alive(world@, e)) by {
                assert(world@[e as int].edge is Some);
            }
            let moved = match end {
                EdgeEnd::Input => Edge::new(t, d.output, d.graph),
                EdgeEnd::Output => Edge::new(d.input, t, d.graph),
                EdgeEnd::Graph => Edge::new(d.input, d.output, t),
            };
            let _ = world.link_edge(e, moved);
        },
        None => {},
    }
}

/// Moves the given end of each edge of `es`, in order, to `t`.
fn retarget_all(world: &mut GraphWorld, es: &Vec<u64>, end: EdgeEnd, t: u64)
    requires
        old(world).wf(),
    ensures
        final(world)@ == retargeting_all(old(world)@, es@, end, t),
        final(world).wf(),
{
    for i in 0..es.len()
        invariant
            world@ == retargeting_all(old(world)@, es@.take(i as int), end, t),
            world.wf(),
    {
        proof {
            assert(es@.take(i + 1).drop_last() =~= es@.take(i as int));
        }
        retarget(world, es[i], end, t);
    }
    assert(es@.take(es.len() as int) =~= es@);
}

impl Graph {
    /// Flattens `graph_node`, a node that is itself a graph, using the given
    /// nodes of its subgraph as proxies for its replacement.
    ///
    /// Note: `input_node` is allowed to equal `output_node`.
    pub fn try_flatten_with(world: &mut GraphWorld, graph_node: u64, input_node: u64, output_node: u64)
        requires
            old(world).wf(),
        ensures
            final(world)@ == flattening(old(world)@, graph_node, input_node, output_node),
            final(world).wf(),
    {
        if in_graph(world, graph_node, input_node) && in_graph(world, graph_node, output_node) {
            match parent_graph(world, graph_node) {
                Some(new_graph) => {
                    let edges = Graph::entity_edges(world, graph_node);
                    retarget_all(world, &edges, EdgeEnd::Graph, new_graph);
                    let inputs = crate::graph::components::Node::entity_inputs(world, graph_node);
                    retarget_all(world, &inputs, EdgeEnd::Output, input_node);
                    let outputs = crate::graph::components::Node::entity_outputs(world, graph_node);
                    retarget_all(world, &outputs, EdgeEnd::Input, output_node);
                },
                None => {},
            }
        }
    }
}

/// The graph an edge belongs to.
#[derive(Clone, Copy, Debug, PartialEq, Eq, Structural)]
pub struct EdgeGraph(pub u64);

/// The input node of an edge, as a relationship component.
#[derive(Clone, Copy, Debug, PartialEq, Eq, Structural)]
pub struct EdgeInput(pub u64);

/// The output node of an edge, as a relationship component.
#[derive(Clone, Copy, Debug, PartialEq, Eq, Structural)]
pub struct EdgeOutput(pub u64);

impl EdgeInput {
    /// Inserts this input on the edge of `e`: the edge starts from the new
    /// node instead, checked only for being another living entity.
    pub fn insert(self, world: &mut GraphWorld, e: u64)
        requires
            old(world).wf(),
        ensures
            final(world)@ == retargeting(old(world)@, e, EdgeEnd::Input, self.0),
            final(world).wf(),
    {
        retarget(world, e, EdgeEnd::Input, self.0);
    }
}

impl EdgeOutput {
    /// Inserts this output on the edge of `e`: the edge ends at the new node
    /// instead, checked only for being another living entity.
    pub fn insert(self, world: &mut GraphWorld, e: u64)
        requires
            old(world).wf(),
        ensures
            final(world)@ == retargeting(old(world)@, e, EdgeEnd::Output, self.0),
            final(world).wf(),
    {
        retarget(world, e, EdgeEnd::Output, self.0);
    }
}

/// The world after [`EdgeGraph::infer_graph_assign`] on `e`: the graph
/// inferred for `e`, or else a freshly spawned entity, becomes the graph of
/// the edge of `e`.
pub open spec fn assigning_graph(w: Seq<EntityState>, e: u64) -> Seq<EntityState> {
    let (g, w1) = match inferred_graph_of(w, e) {
        Some(g) => (g, w),
        None => (w.len() as u64, w.push(fresh_entity())),
    };
    retargeting(w1, e, EdgeEnd::Graph, g)
}

impl EdgeGraph {
    /// Inserts this graph on the edge of `e`: the edge moves to the new
    /// graph, checked only for being another living entity.
    pub fn insert(self, world: &mut GraphWorld, e: u64)
        requires
            old(world).wf(),
        ensures
            final(world)@ == retargeting(old(world)@, e, EdgeEnd::Graph, self.0),
            final(world).wf(),
    {
        retarget(world, e, EdgeEnd::Graph, self.0);
    }

    /// Infers which graph the edge of `e` belongs to, spawning a new graph
    /// entity when none can be inferred, and assigns the edge to it.
    ///
    /// For a properly constructed edge this changes nothing.
    pub fn infer_graph_assign(world: &mut GraphWorld, e: u64)
        requires
            old(world).wf(),
            old(world)@.len() < u64::MAX,
        ensures
            final(world)@ == assigning_graph(old(world)@, e),
            final(world).wf(),
    {
        let graph = match infer_graph(world, e) {
            Some(g) => g,
            None => world.spawn(),
        };
        EdgeGraph(graph).insert(world, e);
    }
}

/// The world after [`Edge::spawn_edge`] from `from` to `to`: a new entity
/// becomes an edge from `from` to `to`, in the graph of `from`, or in a
/// freshly spawned graph entity when `from` belongs to none.
pub open spec fn spawning_edge(w: Seq<EntityState>, from: u64, to: u64) -> Seq<EntityState> {
    let e = w.len() as u64;
    let w1 = w.push(fresh_entity());
    let (g, w2) = match parent_graph_of(w1, from) {
        Some(g) => (g, w1),
        None => ((w.len() + 1) as u64, w1.push(fresh_entity())),
    };
    linking(w2, e, Edge { input: from, output: to, graph: g })
}

impl Edge {
    /// Spawns a new edge from `from` to `to`, in the graph inferred from
    /// `from`.
    pub fn spawn_edge(world: &mut GraphWorld, from: u64, to: u64) -> (e: u64)
        requires
            old(world).wf(),
            old(world)@.len() + 2 <= u64::MAX,
        ensures
            e == old(world)@.len(),
            final(world)@ == spawning_edge(old(world)@, from, to),
            final(world).wf(),
    {
        let e = world.spawn();
        let graph = match parent_graph(world, from) {
            Some(g) => g,
            None => world.spawn(),
        };
        assert(alive(world@, e));
        let _ = world.link_edge(e, Edge::new(from, to, graph));
        e
    }
}

/// One step of moving an end: the world stays well formed, no entity lives
/// or dies, no other edge changes, and the edge of `x` keeps its moved
/// component exactly when the new end is another living entity.
proof fn lemma_retargeting_step(w: Seq<EntityState>, x: u64, end: EdgeEnd, t: u64)
    requires
        wf(w),
    ensures
        wf(retargeting(w, x, end, t)),
        same_alive(w, retargeting(w, x, end, t)),
        forall|y: u64| y != x ==> #[trigger] edge_of(retargeting(w, x, end, t), y) == edge_of(w, y),
        edge_of(w, x) is Some ==> edge_of(retargeting(w, x, end, t), x) == (if t != x && alive(w, t) {
            Some(retargeted(edge_of(w, x)->0, end, t))
        } else {
            None
        }),
{
    if let Some(d) = edge_of(w, x) {
        assert(alive(w, x)) by {
            assert(w[x as int].edge is Some);
        }
        lemma_retarget_checks_changed_end(w, x, end, t);
        lemma_linking(w, x, retargeted(d, end, t));
    } else {
        assert forall|i: int| 0 <= i < w.len() implies (#[trigger] retargeting(w, x, end, t)[i]).alive
            == w[i].alive by {}
    }
}

/// Moving one end of each edge of `es` to `t` moves that end of the edge of
/// `e` when `e` is among them, and leaves the edge of `e` as it was
/// otherwise; the world stays well formed and no entity lives or dies.
proof fn lemma_retargeting_all_at(w: Seq<EntityState>, es: Seq<u64>, end: EdgeEnd, t: u64, e: u64)
    requires
        wf(w),
        edge_of(w, e) is Some,
        es.contains(e) ==> t != e && alive(w, t),
    ensures
        wf(retargeting_all(w, es, end, t)),
        same_alive(w, retargeting_all(w, es, end, t)),
        edge_of(retargeting_all(w, es, end, t), e) == Some(
            if es.contains(e) {
                retargeted(edge_of(w, e)->0, end, t)
            } else {
                edge_of(w, e)->0
            },
        ),
    decreases es.len(),
{
    let d = edge_of(w, e)->0;
    if es.len() == 0 {
        assert forall|i: int| 0 <= i < w.len() implies (#[trigger] retargeting_all(w, es, end, t)[i]).alive
            == w[i].alive by {}
    } else {
        let rest = es.drop_last();
        let l = es.last();
        assert(rest.contains(e) ==> es.contains(e)) by {
            if rest.contains(e) {
                let j = choose|j: int| 0 <= j < rest.len() && rest[j] == e;
                assert(es[j] == e);
            }
        }
        assert(es.contains(e) == (rest.contains(e) || l == e)) by {
            if es.contains(e) && l != e {
                let j = choose|j: int| 0 <= j < es.len() && es[j] == e;
                assert(rest[j] == e);
            }
            if l == e {
                assert(es[es.len() - 1] == e);
            }
        }
        lemma_retargeting_all_at(w, rest, end, t, e);
        let w1 = retargeting_all(w, rest, end, t);
        lemma_retargeting_step(w1, l, end, t);
        let w2 = retargeting(w1, l, end, t);
        assert(w2 == retargeting_all(w, es, end, t));
        if l == e {
            let d1 = edge_of(w1, e)->0;
            assert(alive(w1, t) == alive(w, t)) by {
                if t < w.len() {
                    assert(w1[t as int].alive == w[t as int].alive);
                }
            }
            assert(retargeted(d1, end, t) == retargeted(d, end, t));
        }
        assert forall|i: int| 0 <= i < w.len() implies (#[trigger] w2[i]).alive == w[i].alive by {
            assert(w1[i].alive == w[i].alive);
        }
    }
}

/// An entity that is part of a graph lives.
proof fn lemma_in_graph_alive(w: Seq<EntityState>, g: u64, x: u64)
    requires
        wf(w),
        in_graph_of(w, g, x),
    ensures
        alive(w, x),
{
    let c = graph_candidates(w, x);
    let i = choose|i: int| 0 <= i < c.len() && #[trigger] belongs_to(w, c[i], g);
    if node_of(w, x) is Some {
        assert(w[x as int].node is Some);
    } else {
        assert(c =~= seq![x]);
        assert(w[x as int].edge is Some);
    }
}

/// Flattening redirects every edge into the flattened node: each edge that
/// ended at `graph_node` ends at `input_node` afterwards, unless it is one
/// of the entities flattening moves edges to.
pub proof fn lemma_flattening_redirects_every_input(
    w: Seq<EntityState>,
    graph_node: u64,
    input_node: u64,
    output_node: u64,
    e: u64,
)
    requires
        wf(w),
        flattenable(w, graph_node, input_node, output_node),
        edge_of(w, e) is Some,
        edge_of(w, e)->0.output == graph_node,
        e != input_node,
        e != output_node,
        e != parent_graph_of(w, graph_node)->0,
    ensures
        edge_of(flattening(w, graph_node, input_node, output_node), e) is Some,
        edge_of(flattening(w, graph_node, input_node, output_node), e)->0.output == input_node,
{
    let g = parent_graph_of(w, graph_node)->0;
    lemma_first_edge_graph_source(w, graph_candidates(w, graph_node));
    let c = graph_candidates(w, graph_node);
    let i = choose|i: int|
        0 <= i < c.len() && #[trigger] edge_of(w, c[i]) is Some && edge_of(w, c[i])->0.graph == g;
    assert(graph_of(w, g) is Some);
    assert(alive(w, g)) by {
        assert(w[g as int].graph is Some);
    }
    lemma_in_graph_alive(w, graph_node, input_node);
    lemma_in_graph_alive(w, graph_node, output_node);

    let w1 = retargeting_all(w, graph_edges(w, graph_node), EdgeEnd::Graph, g);
    lemma_retargeting_all_at(w, graph_edges(w, graph_node), EdgeEnd::Graph, g, e);
    let d1 = edge_of(w1, e)->0;
    assert(d1.output == graph_node);
    assert(node_of(w1, graph_node)->0.inputs.contains(e)) by {
        assert(crate::graph::model::edge_listed(w1, e, d1));
    }
    let ins = node_input_edges(w1, graph_node);
    assert(ins.contains(e));
    assert(alive(w1, input_node)) by {
        assert(w1[input_node as int].alive == w[input_node as int].alive);
    }
    let w2 = retargeting_all(w1, ins, EdgeEnd::Output, input_node);
    lemma_retargeting_all_at(w1, ins, EdgeEnd::Output, input_node, e);
    assert(edge_of(w2, e)->0.output == input_node);
    assert(alive(w2, output_node)) by {
        assert(w1[output_node as int].alive == w[output_node as int].alive);
        assert(w2[output_node as int].alive == w1[output_node as int].alive);
    }
    let outs = node_output_edges(w2, graph_node);
    lemma_retargeting_all_at(w2, outs, EdgeEnd::Input, output_node, e);
    let w3 = retargeting_all(w2, outs, EdgeEnd::Input, output_node);
    assert(flattening(w, graph_node, input_node, output_node) == w3);
}

/// Spawning an edge from a node that belongs to a graph puts the new edge in
/// the graph of that node, whatever living entity it goes to: the new
/// entity is an edge from `from` to `to` in the graph of `from`.
pub proof fn lemma_spawned_edge_joins_graph_of_input(w: Seq<EntityState>, from: u64, to: u64)
    requires
        wf(w),
        w.len() + 2 <= u64::MAX,
        parent_graph_of(w, from) is Some,
        alive(w, to),
    ensures
        spawning_edge(w, from, to).len() == w.len() + 1,
        edge_of(spawning_edge(w, from, to), w.len() as u64) == Some(
            Edge { input: from, output: to, graph: parent_graph_of(w, from)->0 },
        ),
{
    let e = w.len() as u64;
    let w1 = w.push(fresh_entity());
    let g = parent_graph_of(w, from)->0;
    assert forall|x: u64| #[trigger] edge_of(w1, x) == edge_of(w, x) by {}
    assert(graph_candidates(w1, from) == graph_candidates(w, from)) by {
        assert(node_of(w1, from) == node_of(w, from));
    }
    lemma_first_edge_graph_same(w, w1, graph_candidates(w, from));
    assert(parent_graph_of(w1, from) == Some(g));
    lemma_spawn(w);
    let d = Edge { input: from, output: to, graph: g };
    assert(spawning_edge(w, from, to) == linking(w1, e, d));
    lemma_first_edge_graph_source(w, graph_candidates(w, from));
    let c = graph_candidates(w, from);
    let i = choose|i: int|
        0 <= i < c.len() && #[trigger] edge_of(w, c[i]) is Some && edge_of(w, c[i])->0.graph == g;
    let dc = edge_of(w, c[i])->0;
    assert(graph_of(w, g) is Some);
    assert(alive(w, g)) by {
        assert(w[g as int].graph is Some);
    }
    assert(alive(w, from)) by {
        if node_of(w, from) is Some {
            assert(w[from as int].node is Some);
        } else {
            assert(c =~= seq![from]);
            assert(w[from as int].edge is Some);
        }
    }
    assert(alive(w1, e));
    assert(alive(w1, from) && alive(w1, to) && alive(w1, g));
    lemma_linking(w1, e, d);
}

/// Moving one end of an edge of a well formed world checks only that end:
/// the edge keeps its changed component exactly when the new end is not the
/// edge itself and is a living entity, whatever components it carries.
pub proof fn lemma_retarget_checks_changed_end(w: Seq<EntityState>, e: u64, end: EdgeEnd, t: u64)
    requires
        wf(w),
        edge_of(w, e) is Some,
    ensures
        edge_of(retargeting(w, e, end, t), e) == (if t != e && alive(w, t) {
            Some(retargeted(edge_of(w, e)->0, end, t))
        } else {
            None
        }),
{
    let d = edge_of(w, e)->0;
    assert(edge_listed_alive(w, e, d)) by {
        assert(w[d.input as int].node is Some);
        assert(w[d.output as int].node is Some);
        assert(w[d.graph as int].graph is Some);
        assert(w[e as int].edge is Some);
    }
    lemma_linking(w, e, retargeted(d, end, t));
}

/// The ends of edge `d` on `e` are other living entities.
spec fn edge_listed_alive(w: Seq<EntityState>, e: u64, d: Edge) -> bool {
    &&& d.input != e && d.output != e && d.graph != e
    &&& alive(w, d.input) && alive(w, d.output) && alive(w, d.graph) && alive(w, e)
}

/// Assigning its inferred graph to an edge that already belongs to that
/// graph changes no edge component and no entity's life.
pub proof fn lemma_assign_keeps_proper_edge(w: Seq<EntityState>, e: u64)
    requires
        wf(w),
        edge_of(w, e) is Some,
        inferred_graph_of(w, e) == Some(edge_of(w, e)->0.graph),
    ensures
        same_alive(w, assigning_graph(w, e)),
        forall|y: u64| #[trigger] edge_of(assigning_graph(w, e), y) == edge_of(w, y),
{
    let d = edge_of(w, e)->0;
    assert(retargeted(d, EdgeEnd::Graph, d.graph) == d);
    assert(edge_listed_alive(w, e, d)) by {
        assert(w[d.input as int].node is Some);
        assert(w[d.output as int].node is Some);
        assert(w[d.graph as int].graph is Some);
        assert(w[e as int].edge is Some);
    }
    assert(assigning_graph(w, e) == linking(w, e, d));
    lemma_linking(w, e, d);
}

} // verus!
