//! The components for constructing graphs, and the world that holds them.
use vstd::prelude::*;

use crate::graph::cascade::{
    alive_count, cascade_inv, despawn_progress, killing, lemma_despawn_finish, lemma_despawn_kill,
    lemma_despawn_skip, lemma_pruned_world_empty,
};
use crate::graph::lemmas::{
    lemma_inserting_edge, lemma_inserting_graph, lemma_inserting_node, lemma_relabel,
    lemma_removing_edges, lemma_removing_graph, lemma_removing_node, lemma_detach, lemma_spawn,
    lemma_linking,
};
use crate::graph::model::{
    add_input, add_member, add_output, alive, cloning_labels,
    connections, dead_entity, despawned_with, despawning, detach, drop_input,
    drop_member, drop_output, edge_fault, edge_of, empty_node, fresh_entity, graph_of,
    inserting_edge, inserting_graph, inserting_node, moving_labels, node_of, removing_edge,
    removing_edges, removing_graph, removing_node, wf, with_edge, with_graph, with_markers,
    with_name, with_node, without, ends_valid, linking, lists_nonempty, node_nonempty, EdgeFault, EntityState,
    NodeView,
};
use crate::graph::nonempty::{
    lemma_ne_despawning, lemma_ne_inserting_edge, lemma_ne_linking, lemma_ne_removing_edge,
};
use crate::progression::graph::Markers;

verus! {

/// A component representing an edge between two nodes in a graph.
#[derive(Clone, Copy, Debug, PartialEq, Eq, Structural)]
pub struct Edge {
    pub input: u64,
    pub output: u64,
    pub graph: u64,
}

/// Edges `a` and `b` run between the same two nodes in opposite directions,
/// within one graph.
pub open spec fn forms_cycle(a: Edge, b: Edge) -> bool {
    a.graph == b.graph && a.output == b.input && b.output == a.input
}

impl Edge {
    /// An edge from `input` to `output` within `graph`.
    pub fn new(input: u64, output: u64, graph: u64) -> (e: Edge)
        ensures
            e == (Edge { input, output, graph }),
    {
        Edge { input, output, graph }
    }

    pub fn input(&self) -> (r: u64)
        ensures
            r == self.input,
    {
        self.input
    }

    pub fn output(&self) -> (r: u64)
        ensures
            r == self.output,
    {
        self.output
    }

    pub fn graph(&self) -> (r: u64)
        ensures
            r == self.graph,
    {
        self.graph
    }

    /// Whether two edges form a cycle of two within one graph.
    pub fn is_cycle(edges: (&Edge, &Edge)) -> (r: bool)
        ensures
            r == forms_cycle(*edges.0, *edges.1),
    {
        edges.0.graph == edges.1.graph && edges.0.output == edges.1.input && edges.1.output
            == edges.0.input
    }
}

/// A component representing a node in one or more graphs.
pub struct Node {
    inputs: Vec<u64>,
    outputs: Vec<u64>,
}

impl View for Node {
    type V = NodeView;

    closed spec fn view(&self) -> NodeView {
        NodeView { inputs: self.inputs@, outputs: self.outputs@ }
    }
}

impl Default for Node {
    /// A node with no edges.
    fn default() -> (n: Node)
        ensures
            n@ == empty_node(),
    {
        Node { inputs: Vec::new(), outputs: Vec::new() }
    }
}

impl Node {
    pub fn has_inputs(&self) -> (r: bool)
        ensures
            r == (self@.inputs.len() > 0),
    {
        self.inputs.len() != 0
    }

    pub fn has_outputs(&self) -> (r: bool)
        ensures
            r == (self@.outputs.len() > 0),
    {
        self.outputs.len() != 0
    }

    pub fn has_connections(&self) -> (r: bool)
        ensures
            r == (self@.inputs.len() > 0 || self@.outputs.len() > 0),
    {
        self.has_inputs() || self.has_outputs()
    }

    /// The edges that end at this node.
    pub fn inputs(&self) -> (r: &Vec<u64>)
        ensures
            r@ == self@.inputs,
    {
        &self.inputs
    }

    /// The edges that start from this node.
    pub fn outputs(&self) -> (r: &Vec<u64>)
        ensures
            r@ == self@.outputs,
    {
        &self.outputs
    }

    pub fn inputs_outputs(&self) -> (r: (&Vec<u64>, &Vec<u64>))
        ensures
            r.0@ == self@.inputs,
            r.1@ == self@.outputs,
    {
        (&self.inputs, &self.outputs)
    }
}

/// A component representing a graph of nodes connected by edges.
pub struct Graph {
    edges: Vec<u64>,
}

impl View for Graph {
    type V = Seq<u64>;

    closed spec fn view(&self) -> Seq<u64> {
        self.edges@
    }
}

impl Default for Graph {
    /// A graph with no edges.
    fn default() -> (g: Graph)
        ensures
            g@ == Seq::<u64>::empty(),
    {
        Graph { edges: Vec::new() }
    }
}

impl Graph {
    pub fn is_empty(&self) -> (r: bool)
        ensures
            r == (self@.len() == 0),
    {
        self.edges.len() == 0
    }

    /// The edges of this graph.
    pub fn edges(&self) -> (r: &Vec<u64>)
        ensures
            r@ == self@,
    {
        &self.edges
    }
}

/// Type alias to tell the graph's [`Node`] apart from other nodes.
pub type GraphNode = Node;

/// The components of one entity.
struct Slot {
    alive: bool,
    node: Option<Node>,
    edge: Option<Edge>,
    graph: Option<Graph>,
    name: Option<String>,
    markers: Markers,
}

spec fn node_view(n: Option<Node>) -> Option<NodeView> {
    match n {
        Some(n) => Some(n@),
        None => None,
    }
}

spec fn graph_view(g: Option<Graph>) -> Option<Seq<u64>> {
    match g {
        Some(g) => Some(g@),
        None => None,
    }
}

spec fn name_view(s: Option<String>) -> Option<Seq<char>> {
    match s {
        Some(s) => Some(s@),
        None => None,
    }
}

impl View for Slot {
    type V = EntityState;

    closed spec fn view(&self) -> EntityState {
        EntityState {
            alive: self.alive,
            node: node_view(self.node),
            edge: self.edge,
            graph: graph_view(self.graph),
            name: name_view(self.name),
            markers: self.markers,
        }
    }
}

impl Slot {
    fn dead() -> (s: Slot)
        ensures
            s@ == dead_entity(),
    {
        Slot {
            alive: false,
            node: None,
            edge: None,
            graph: None,
            name: None,
            markers: Markers::none(),
        }
    }
}

/// Copies of a list of entities.
pub(crate) fn copy_ids(v: &Vec<u64>) -> (r: Vec<u64>)
    ensures
        r@ == v@,
{
    let mut r: Vec<u64> = Vec::new();
    for i in 0..v.len()
        invariant
            r@ == v@.take(i as int),
    {
        r.push(v[i]);
        assert(r@ =~= v@.take(i + 1));
    }
    assert(r@ =~= v@);
    r
}

/// `v` with every occurrence of `e` removed, as `retain` leaves it.
fn ids_without(v: &Vec<u64>, e: u64) -> (r: Vec<u64>)
    ensures
        r@ == without(v@, e),
{
    let mut r: Vec<u64> = Vec::new();
    for i in 0..v.len()
        invariant
            r@ == without(v@.take(i as int), e),
    {
        proof {
            reveal_with_fuel(Seq::filter, 1);
            assert(v@.take(i + 1).drop_last() =~= v@.take(i as int));
        }
        if v[i] != e {
            r.push(v[i]);
        }
    }
    assert(v@.take(v.len() as int) =~= v@);
    r
}

/// Whether `e` occurs in `v`.
fn ids_contain(v: &Vec<u64>, e: u64) -> (r: bool)
    ensures
        r == v@.contains(e),
{
    for i in 0..v.len()
        invariant
            forall|j: int| 0 <= j < i ==> v@[j] != e,
    {
        if v[i] == e {
            return true;
        }
    }
    false
}

/// The world's entities and their graph components.
///
/// Entities are numbered in the order they are spawned; the number of a
/// despawned entity is never given out again.
pub struct GraphWorld {
    slots: Vec<Slot>,
}

impl View for GraphWorld {
    type V = Seq<EntityState>;

    closed spec fn view(&self) -> Seq<EntityState> {
        self.slots@.map_values(|s: Slot| s@)
    }
}

impl GraphWorld {
    /// The world is well formed.
    pub open spec fn wf(&self) -> bool {
        wf(self@)
    }

    /// A world with no entities.
    pub fn new() -> (w: GraphWorld)
        ensures
            w@ == Seq::<EntityState>::empty(),
            w.wf(),
            lists_nonempty(w@),
    {
        let w = GraphWorld { slots: Vec::new() };
        assert(w@ =~= Seq::<EntityState>::empty());
        w
    }

    /// The number of entities ever spawned.
    pub fn len(&self) -> (r: usize)
        ensures
            r == self@.len(),
    {
        self.slots.len()
    }

    /// Whether `x` is an entity that has been spawned and not despawned.
    pub fn is_alive(&self, x: u64) -> (r: bool)
        ensures
            r == alive(self@, x),
    {
        if x < self.slots.len() as u64 {
            self.slots[x as usize].alive
        } else {
            false
        }
    }

    /// The edge component of `e`.
    pub fn edge(&self, e: u64) -> (r: Option<Edge>)
        ensures
            r == edge_of(self@, e),
    {
        if e < self.slots.len() as u64 {
            self.slots[e as usize].edge
        } else {
            None
        }
    }

    /// The node component of `x`.
    pub fn node(&self, x: u64) -> (r: Option<&Node>)
        ensures
            match r {
                Some(n) => node_of(self@, x) == Some(n@),
                None => node_of(self@, x) is None,
            },
    {
        if x < self.slots.len() as u64 {
            match &self.slots[x as usize].node {
                Some(n) => Some(n),
                None => None,
            }
        } else {
            None
        }
    }

    /// The graph component of `g`.
    pub fn graph(&self, g: u64) -> (r: Option<&Graph>)
        ensures
            match r {
                Some(gr) => graph_of(self@, g) == Some(gr@),
                None => graph_of(self@, g) is None,
            },
    {
        if g < self.slots.len() as u64 {
            match &self.slots[g as usize].graph {
                Some(gr) => Some(gr),
                None => None,
            }
        } else {
            None
        }
    }

    /// Spawns an entity with no components.
    pub fn spawn(&mut self) -> (x: u64)
        requires
            old(self)@.len() < u64::MAX,
        ensures
            x == old(self)@.len(),
            final(self)@ == old(self)@.push(fresh_entity()),
            old(self).wf() ==> final(self).wf(),
            lists_nonempty(old(self)@) ==> lists_nonempty(final(self)@),
    {
        proof {
            if wf(self@) {
                lemma_spawn(self@);
            }
            let w0 = old(self)@;
            let w2 = w0.push(fresh_entity());
            if lists_nonempty(w0) {
                assert forall|y: u64| (#[trigger] node_of(w2, y)) is Some implies node_nonempty(
                    node_of(w2, y)->0,
                ) by {
                    assert(node_of(w2, y) == node_of(w0, y));
                }
                assert forall|y: u64| (#[trigger] graph_of(w2, y)) is Some implies graph_of(w2, y)->0.len()
                    > 0 by {
                    assert(graph_of(w2, y) == graph_of(w0, y));
                }
                assert(lists_nonempty(w2));
            }
        }
        let x = self.slots.len() as u64;
        let s = Slot {
            alive: true,
            node: None,
            edge: None,
            graph: None,
            name: None,
            markers: Markers::none(),
        };
        self.slots.push(s);
        assert(self@ =~= old(self)@.push(fresh_entity()));
        x
    }

    /// The index of the slot of entity `x`.
    fn slot_index(&self, x: u64) -> (i: usize)
        requires
            x < self@.len(),
        ensures
            i == x,
            i < self.slots@.len(),
    {
        let n = self.slots.len();
        assert(self.slots@.len() == self@.len());
        x as usize
    }

    /// Takes slot `i` out, leaving a dead slot in its place.
    fn take_slot(&mut self, i: usize) -> (s: Slot)
        requires
            i < old(self)@.len(),
        ensures
            s@ == old(self)@[i as int],
            final(self)@ == old(self)@.update(i as int, dead_entity()),
    {
        let mut s = Slot::dead();
        self.slots.set_and_swap(i, &mut s);
        assert(self@ =~= old(self)@.update(i as int, dead_entity()));
        s
    }

    /// Puts slot `s` back at `i`.
    fn put_slot(&mut self, i: usize, s: Slot)
        requires
            i < old(self)@.len(),
        ensures
            final(self)@ == old(self)@.update(i as int, s@),
    {
        self.slots.set(i, s);
        assert(self@ =~= old(self)@.update(i as int, s@));
    }

    fn set_edge(&mut self, e: u64, d: Option<Edge>)
        ensures
            final(self)@ == with_edge(old(self)@, e, d),
    {
        if e < self.slots.len() as u64 {
            let i = e as usize;
            let mut s = self.take_slot(i);
            s.edge = d;
            self.put_slot(i, s);
            assert(self@ =~= with_edge(old(self)@, e, d));
        }
    }

    fn drop_output(&mut self, x: u64, e: u64)
        ensures
            final(self)@ == drop_output(old(self)@, x, e),
    {
        if x < self.slots.len() as u64 {
            let i = x as usize;
            let mut s = self.take_slot(i);
            let taken = s.node.take();
            match taken {
                Some(n) => {
                    let outputs = ids_without(&n.outputs, e);
                    if !(n.inputs.len() == 0 && outputs.len() == 0) {
                        s.node = Some(Node { inputs: n.inputs, outputs });
                    }
                },
                None => {},
            }
            self.put_slot(i, s);
            assert(self@ =~= drop_output(old(self)@, x, e));
        }
    }

    fn drop_input(&mut self, x: u64, e: u64)
        ensures
            final(self)@ == drop_input(old(self)@, x, e),
    {
        if x < self.slots.len() as u64 {
            let i = x as usize;
            let mut s = self.take_slot(i);
            let taken = s.node.take();
            match taken {
                Some(n) => {
                    let inputs = ids_without(&n.inputs, e);
                    if !(inputs.len() == 0 && n.outputs.len() == 0) {
                        s.node = Some(Node { inputs, outputs: n.outputs });
                    }
                },
                None => {},
            }
            self.put_slot(i, s);
            assert(self@ =~= drop_input(old(self)@, x, e));
        }
    }

    fn drop_member(&mut self, g: u64, e: u64)
        ensures
            final(self)@ == drop_member(old(self)@, g, e),
    {
        if g < self.slots.len() as u64 {
            let i = g as usize;
            let mut s = self.take_slot(i);
            let taken = s.graph.take();
            match taken {
                Some(gr) => {
                    let rest = ids_without(&gr.edges, e);
                    if rest.len() != 0 {
                        s.graph = Some(Graph { edges: rest });
                    }
                },
                None => {},
            }
            self.put_slot(i, s);
            assert(self@ =~= drop_member(old(self)@, g, e));
        }
    }

    fn add_output(&mut self, x: u64, e: u64)
        ensures
            final(self)@ == add_output(old(self)@, x, e),
    {
        if x < self.slots.len() as u64 {
        let i = x as usize;
        let mut s = self.take_slot(i);
        let taken = s.node.take();
        let mut n = match taken {
            Some(n) => n,
            None => Node::default(),
        };
        if !ids_contain(&n.outputs, e) {
            n.outputs.push(e);
        }
        s.node = Some(n);
        self.put_slot(i, s);
        assert(self@ =~= add_output(old(self)@, x, e));
        }
    }

    fn add_input(&mut self, x: u64, e: u64)
        ensures
            final(self)@ == add_input(old(self)@, x, e),
    {
        if x < self.slots.len() as u64 {
        let i = x as usize;
        let mut s = self.take_slot(i);
        let taken = s.node.take();
        let mut n = match taken {
            Some(n) => n,
            None => Node::default(),
        };
        if !ids_contain(&n.inputs, e) {
            n.inputs.push(e);
        }
        s.node = Some(n);
        self.put_slot(i, s);
        assert(self@ =~= add_input(old(self)@, x, e));
        }
    }

    fn add_member(&mut self, g: u64, e: u64)
        ensures
            final(self)@ == add_member(old(self)@, g, e),
    {
        if g < self.slots.len() as u64 {
        let i = g as usize;
        let mut s = self.take_slot(i);
        let taken = s.graph.take();
        let mut gr = match taken {
            Some(gr) => gr,
            None => Graph::default(),
        };
        if !ids_contain(&gr.edges, e) {
            gr.edges.push(e);
        }
        s.graph = Some(gr);
        self.put_slot(i, s);
        assert(self@ =~= add_member(old(self)@, g, e));
        }
    }

    /// The replace hook of an edge: the edge leaves the lists that name it,
    /// and nodes and graphs left empty are removed.
    fn detach(&mut self, e: u64, d: Edge)
        ensures
            final(self)@ == detach(old(self)@, e, d),
    {
        self.set_edge(e, None);
        self.drop_output(d.input, e);
        self.drop_input(d.output, e);
        self.drop_member(d.graph, e);
    }

    fn set_node(&mut self, x: u64, n: Option<Node>)
        ensures
            final(self)@ == with_node(old(self)@, x, node_view(n)),
    {
        if x < self.slots.len() as u64 {
            let i = x as usize;
            let mut s = self.take_slot(i);
            s.node = n;
            self.put_slot(i, s);
            assert(self@ =~= with_node(old(self)@, x, node_view(n)));
        }
    }

    fn set_graph(&mut self, g: u64, gr: Option<Graph>)
        ensures
            final(self)@ == with_graph(old(self)@, g, graph_view(gr)),
    {
        if g < self.slots.len() as u64 {
            let i = g as usize;
            let mut s = self.take_slot(i);
            s.graph = gr;
            self.put_slot(i, s);
            assert(self@ =~= with_graph(old(self)@, g, graph_view(gr)));
        }
    }

    /// Which check, if any, an edge component `d` inserted on `e` fails, in
    /// the order the insert hook makes them.
    pub fn edge_fault(&self, e: u64, d: Edge) -> (r: Option<EdgeFault>)
        ensures
            r == edge_fault(self@, e, d),
    {
        if d.input == e {
            Some(EdgeFault::InputIsSelf)
        } else if d.output == e {
            Some(EdgeFault::OutputIsSelf)
        } else if d.graph == e {
            Some(EdgeFault::GraphIsSelf)
        } else if !self.is_alive(d.input) {
            Some(EdgeFault::InputMissing)
        } else if self.edge(d.input).is_some() {
            Some(EdgeFault::InputIsEdge)
        } else if !self.is_alive(d.output) {
            Some(EdgeFault::OutputMissing)
        } else if self.edge(d.output).is_some() {
            Some(EdgeFault::OutputIsEdge)
        } else if !self.is_alive(d.graph) {
            Some(EdgeFault::GraphMissing)
        } else if self.edge(d.graph).is_some() {
            Some(EdgeFault::GraphIsEdge)
        } else {
            None
        }
    }

    /// Inserts edge component `d` on `e`, with the hooks of [`Edge`]: an
    /// edge that `e` carried is first taken off; then, if `d` passes every
    /// check, `e` is listed among the outputs of `d.input`, the inputs of
    /// `d.output` and the edges of `d.graph` (each given an empty component
    /// first if it has none); otherwise the malformed edge is taken off
    /// again and the check it failed is returned.
    pub fn insert_edge(&mut self, e: u64, d: Edge) -> (r: Result<(), EdgeFault>)
        requires
            old(self).wf(),
            alive(old(self)@, e),
        ensures
            final(self)@ == inserting_edge(old(self)@, e, d),
            final(self).wf(),
            r == match edge_fault(old(self)@, e, d) {
                Some(f) => Err::<(), EdgeFault>(f),
                None => Ok(()),
            },
            lists_nonempty(old(self)@) ==> lists_nonempty(final(self)@),
    {
        proof {
            lemma_inserting_edge(old(self)@, e, d);
            if lists_nonempty(old(self)@) {
                lemma_ne_inserting_edge(old(self)@, e, d);
            }
        }
        let fault = self.edge_fault(e, d);
        match self.edge(e) {
            Some(prev) => self.detach(e, prev),
            None => {},
        }
        self.set_edge(e, Some(d));
        match fault {
            None => {
                self.add_output(d.input, e);
                self.add_input(d.output, e);
                self.add_member(d.graph, e);
                Ok(())
            },
            Some(f) => {
                self.detach(e, d);
                Err(f)
            },
        }
    }

    /// Links edge `e` to the ends of `d`, as the relationship components of
    /// an edge link: the edge `e` carried is unlinked first; then, if no end
    /// is `e` itself and every end is a living entity, `e` carries `d` and is
    /// listed among the outputs of `d.input`, the inputs of `d.output` and
    /// the edges of `d.graph`; otherwise `e` is left without an edge.
    /// Unlike [`GraphWorld::insert_edge`], an end may carry an edge itself.
    /// Returns whether `e` was linked.
    pub fn link_edge(&mut self, e: u64, d: Edge) -> (linked: bool)
        requires
            old(self).wf(),
            alive(old(self)@, e),
        ensures
            final(self)@ == linking(old(self)@, e, d),
            final(self).wf(),
            linked == ends_valid(old(self)@, e, d),
            lists_nonempty(old(self)@) ==> lists_nonempty(final(self)@),
    {
        proof {
            lemma_linking(old(self)@, e, d);
            if lists_nonempty(old(self)@) {
                lemma_ne_linking(old(self)@, e, d);
            }
        }
        let valid = d.input != e && d.output != e && d.graph != e && self.is_alive(d.input)
            && self.is_alive(d.output) && self.is_alive(d.graph);
        match self.edge(e) {
            Some(prev) => self.detach(e, prev),
            None => {},
        }
        if valid {
            self.set_edge(e, Some(d));
            self.add_output(d.input, e);
            self.add_input(d.output, e);
            self.add_member(d.graph, e);
        }
        valid
    }

    /// Takes the edge component off `e`, with the replace hook of [`Edge`]:
    /// `e` leaves the lists of its nodes and graph, and a node or graph left
    /// with no edge is removed.
    pub fn remove_edge(&mut self, e: u64)
        requires
            old(self).wf(),
        ensures
            final(self)@ == removing_edge(old(self)@, e),
            final(self).wf(),
            lists_nonempty(old(self)@) ==> lists_nonempty(final(self)@),
    {
        proof {
            if lists_nonempty(old(self)@) {
                lemma_ne_removing_edge(old(self)@, e);
            }
        }
        match self.edge(e) {
            Some(d) => {
                proof {
                    lemma_detach(old(self)@, e);
                }
                self.detach(e, d);
            },
            None => {},
        }
    }

    /// Takes the edge components off every entity of `es`, in order.
    fn remove_edges(&mut self, es: &Vec<u64>)
        requires
            old(self).wf(),
        ensures
            final(self)@ == removing_edges(old(self)@, es@),
            final(self).wf(),
    {
        for i in 0..es.len()
            invariant
                self@ == removing_edges(old(self)@, es@.take(i as int)),
                self.wf(),
                wf(old(self)@),
        {
            proof {
                assert(es@.take(i + 1).drop_last() =~= es@.take(i as int));
                lemma_removing_edges(old(self)@, es@.take(i + 1));
            }
            self.remove_edge(es[i]);
        }
        assert(es@.take(es.len() as int) =~= es@);
    }

    /// The edges node `x` lists, inputs first.
    fn connections(&self, x: u64) -> (r: Vec<u64>)
        requires
            node_of(self@, x) is Some,
        ensures
            r@ == node_of(self@, x)->0.inputs + node_of(self@, x)->0.outputs,
    {
        let i = self.slot_index(x);
        match &self.slots[i].node {
            Some(n) => {
                let mut r = copy_ids(&n.inputs);
                let mut outs = copy_ids(&n.outputs);
                r.append(&mut outs);
                r
            },
            None => Vec::new(),
        }
    }

    /// Removes the node component of `x`, with the replace hook of
    /// [`Node`]: every edge it lists loses its edge component.
    pub fn remove_node(&mut self, x: u64)
        requires
            old(self).wf(),
        ensures
            final(self)@ == removing_node(old(self)@, x),
            final(self).wf(),
    {
        if self.node(x).is_some() {
            proof {
                lemma_removing_node(old(self)@, x);
            }
            let cs = self.connections(x);
            self.remove_edges(&cs);
            self.set_node(x, None);
        }
    }

    /// Removes the graph component of `g`, with the replace hook of
    /// [`Graph`]: every edge it lists loses its edge component.
    pub fn remove_graph(&mut self, g: u64)
        requires
            old(self).wf(),
        ensures
            final(self)@ == removing_graph(old(self)@, g),
            final(self).wf(),
    {
        let es = match self.graph(g) {
            Some(gr) => copy_ids(&gr.edges),
            None => {
                return;
            },
        };
        proof {
            lemma_removing_graph(old(self)@, g);
        }
        self.remove_edges(&es);
        self.set_graph(g, None);
    }

    /// Inserts an empty node component on `x`, replacing the one it has.
    pub fn insert_node(&mut self, x: u64)
        requires
            old(self).wf(),
            alive(old(self)@, x),
        ensures
            final(self)@ == inserting_node(old(self)@, x),
            final(self).wf(),
    {
        proof {
            lemma_inserting_node(old(self)@, x);
        }
        let state: u8 = match self.node(x) {
            Some(n) => if n.has_connections() {
                1
            } else {
                2
            },
            None => 0,
        };
        if state == 0 {
            self.set_node(x, Some(Node::default()));
        } else if state == 1 {
            self.remove_node(x);
        }
    }

    /// Inserts an empty graph component on `g`, replacing the one it has.
    pub fn insert_graph(&mut self, g: u64)
        requires
            old(self).wf(),
            alive(old(self)@, g),
        ensures
            final(self)@ == inserting_graph(old(self)@, g),
            final(self).wf(),
    {
        proof {
            lemma_inserting_graph(old(self)@, g);
        }
        let state: u8 = match self.graph(g) {
            Some(gr) => if gr.is_empty() {
                2
            } else {
                1
            },
            None => 0,
        };
        if state == 0 {
            self.set_graph(g, Some(Graph::default()));
        } else if state == 1 {
            self.remove_graph(g);
        }
    }

    /// The name of `x`.
    pub fn name(&self, x: u64) -> (r: Option<&String>)
        ensures
            x < self@.len() ==> match r {
                Some(s) => self@[x as int].name == Some(s@),
                None => self@[x as int].name is None,
            },
            x >= self@.len() ==> r is None,
    {
        if x < self.slots.len() as u64 {
            match &self.slots[x as usize].name {
                Some(s) => Some(s),
                None => None,
            }
        } else {
            None
        }
    }

    /// The markers of `x`.
    pub fn markers(&self, x: u64) -> (r: Markers)
        requires
            x < self@.len(),
        ensures
            r == self@[x as int].markers,
    {
        let i = self.slot_index(x);
        self.slots[i].markers
    }

    /// Inserts a name component on `x`.
    pub fn insert_name(&mut self, x: u64, name: String)
        requires
            old(self).wf(),
            alive(old(self)@, x),
        ensures
            final(self)@ == with_name(old(self)@, x, Some(name@)),
            final(self).wf(),
    {
        let i = self.slot_index(x);
        let mut s = self.take_slot(i);
        s.name = Some(name);
        self.put_slot(i, s);
        assert(self@ =~= with_name(old(self)@, x, Some(name@)));
        proof {
            lemma_relabel(old(self)@, self@);
        }
    }

    /// Replaces the markers of `x`.
    pub fn set_markers(&mut self, x: u64, markers: Markers)
        requires
            old(self).wf(),
            alive(old(self)@, x),
        ensures
            final(self)@ == with_markers(old(self)@, x, markers),
            final(self).wf(),
    {
        let i = self.slot_index(x);
        let mut s = self.take_slot(i);
        s.markers = markers;
        self.put_slot(i, s);
        assert(self@ =~= with_markers(old(self)@, x, markers));
        proof {
            lemma_relabel(old(self)@, self@);
        }
    }

    /// Clones the cloneable components of `src` (its name and its progress
    /// marker) onto `dst`.
    pub fn clone_labels(&mut self, src: u64, dst: u64)
        requires
            old(self).wf(),
            alive(old(self)@, src),
            alive(old(self)@, dst),
        ensures
            final(self)@ == cloning_labels(old(self)@, src, dst),
            final(self).wf(),
    {
        let si = self.slot_index(src);
        let name = match &self.slots[si].name {
            Some(n) => Some(n.clone()),
            None => None,
        };
        let progress = self.slots[si].markers.progress_edge;
        let i = self.slot_index(dst);
        let mut s = self.take_slot(i);
        match name {
            Some(n) => {
                s.name = Some(n);
            },
            None => {},
        }
        if progress {
            s.markers.progress_edge = true;
        }
        self.put_slot(i, s);
        assert(self@ =~= cloning_labels(old(self)@, src, dst));
        proof {
            lemma_relabel(old(self)@, self@);
        }
    }

    /// Moves the cloneable components of `src` onto `dst`.
    pub fn move_labels(&mut self, src: u64, dst: u64)
        requires
            old(self).wf(),
            alive(old(self)@, src),
            alive(old(self)@, dst),
        ensures
            final(self)@ == moving_labels(old(self)@, src, dst),
            final(self).wf(),
    {
        self.clone_labels(src, dst);
        let ghost w1 = self@;
        let i = self.slot_index(src);
        let mut s = self.take_slot(i);
        s.name = None;
        s.markers.progress_edge = false;
        self.put_slot(i, s);
        assert(self@ =~= moving_labels(old(self)@, src, dst));
        proof {
            lemma_relabel(w1, self@);
        }
    }

    /// The edges `y` lists: node inputs, node outputs, then graph edges.
    fn all_connections(&self, y: u64) -> (r: Vec<u64>)
        requires
            y < self@.len(),
        ensures
            r@ == connections(self@, y),
    {
        let i = self.slot_index(y);
        let mut r: Vec<u64> = Vec::new();
        match &self.slots[i].node {
            Some(n) => {
                r = copy_ids(&n.inputs);
                let mut outs = copy_ids(&n.outputs);
                r.append(&mut outs);
            },
            None => {},
        }
        match &self.slots[i].graph {
            Some(gr) => {
                let mut es = copy_ids(&gr.edges);
                r.append(&mut es);
            },
            None => {},
        }
        assert(r@ =~= connections(self@, y));
        r
    }

    /// Clears the slot of `y`.
    fn kill(&mut self, y: u64)
        requires
            y < old(self)@.len(),
        ensures
            final(self)@ == killing(old(self)@, y),
    {
        let i = self.slot_index(y);
        let _s = self.take_slot(i);
    }

    /// Despawns `x`, with the despawn hooks of [`Node`] and [`Graph`]: the
    /// edges that a despawned node or graph lists are despawned in turn,
    /// and every despawned edge leaves the lists of the entities that stay.
    /// Despawning an entity that does not exist changes nothing.
    pub fn despawn(&mut self, x: u64)
        requires
            old(self).wf(),
        ensures
            final(self)@ == despawning(old(self)@, x),
            final(self).wf(),
            lists_nonempty(old(self)@) ==> lists_nonempty(final(self)@),
    {
        proof {
            if lists_nonempty(old(self)@) {
                lemma_ne_despawning(old(self)@, x);
            }
        }
        if !self.is_alive(x) {
            return;
        }
        let ghost w0 = self@;
        let ghost mut k: Set<u64> = Set::empty();
        let n = self.slots.len();
        let mut pending: Vec<u64> = Vec::new();
        pending.push(x);
        proof {
            lemma_pruned_world_empty(w0);
            assert(n <= usize::MAX);
            assert(w0.len() == self.slots@.len());
            assert(pending@[0] == x);
            assert(pending@.contains(x));
            assert(despawned_with(w0, x, x));
            assert(w0.len() <= u64::MAX);
            assert(cascade_inv(w0, self@, k));
            assert(forall|i: int| 0 <= i < pending@.len() ==> pending@[i] == x);
        }
        loop
            invariant
                despawn_progress(w0, x, self@, k, pending@),
            ensures
                pending@.len() == 0,
            decreases alive_count(self@), pending@.len(),
        {
            let ghost p0 = pending@;
            match pending.pop() {
                None => {
                    break;
                },
                Some(y) => {
                    assert(p0 == pending@.push(y));
                    if self.is_alive(y) {
                        let ghost w = self@;
                        let ghost rest = pending@;
                        let mut cs = self.all_connections(y);
                        pending.append(&mut cs);
                        match self.edge(y) {
                            Some(d) => self.detach(y, d),
                            None => {},
                        }
                        assert(self@ == removing_edge(w, y));
                        self.kill(y);
                        proof {
                            lemma_despawn_kill(w0, x, w, k, rest, y);
                            k = k.insert(y);
                        }
                    } else {
                        proof {
                            lemma_despawn_skip(w0, x, self@, k, pending@, y);
                        }
                    }
                },
            }
        }
        proof {
            assert(pending@ == Seq::<u64>::empty());
            lemma_despawn_finish(w0, x, self@, k);
        }
    }
}

} // verus!
