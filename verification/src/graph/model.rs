//! The mathematical model of a world of entities carrying graph components,
//! and the effect of each world operation on it.
use vstd::prelude::*;

use crate::graph::components::Edge;
use crate::progression::graph::Markers;

verus! {

/// The lists of a node component: the edges that end at it and the edges
/// that start from it.
pub struct NodeView {
    pub inputs: Seq<u64>,
    pub outputs: Seq<u64>,
}

/// What the world holds for one entity.
pub struct EntityState {
    pub alive: bool,
    pub node: Option<NodeView>,
    pub edge: Option<Edge>,
    /// The edges of a graph component.
    pub graph: Option<Seq<u64>>,
    pub name: Option<Seq<char>>,
    pub markers: Markers,
}

/// A node with no edges.
pub open spec fn empty_node() -> NodeView {
    NodeView { inputs: Seq::empty(), outputs: Seq::empty() }
}

/// A freshly spawned entity: alive and without components.
pub open spec fn fresh_entity() -> EntityState {
    EntityState {
        alive: true,
        node: None,
        edge: None,
        graph: None,
        name: None,
        markers: Markers::spec_none(),
    }
}

/// A despawned entity.
pub open spec fn dead_entity() -> EntityState {
    EntityState {
        alive: false,
        node: None,
        edge: None,
        graph: None,
        name: None,
        markers: Markers::spec_none(),
    }
}

/// `w2` holds the entities of `w`, each alive or dead as it was.
pub open spec fn same_alive(w: Seq<EntityState>, w2: Seq<EntityState>) -> bool {
    &&& w2.len() == w.len()
    &&& forall|i: int| 0 <= i < w.len() ==> (#[trigger] w2[i]).alive == w[i].alive
}

/// `w2` holds the entities of `w`, each with the name and markers it had.
pub open spec fn same_labels(w: Seq<EntityState>, w2: Seq<EntityState>) -> bool {
    &&& w2.len() == w.len()
    &&& forall|i: int|
        0 <= i < w.len() ==> (#[trigger] w2[i]).name == w[i].name && w2[i].markers == w[i].markers
}

/// `w2` holds the entities of `w`, each alive or dead as it was, and every
/// entity but `e` keeps its edge component.
pub open spec fn edges_kept_but(w: Seq<EntityState>, w2: Seq<EntityState>, e: u64) -> bool {
    &&& same_alive(w, w2)
    &&& forall|y: u64| y != e ==> #[trigger] edge_of(w2, y) == edge_of(w, y)
}

pub open spec fn alive(w: Seq<EntityState>, x: u64) -> bool {
    x < w.len() && w[x as int].alive
}

pub open spec fn edge_of(w: Seq<EntityState>, e: u64) -> Option<Edge> {
    if e < w.len() {
        w[e as int].edge
    } else {
        None
    }
}

pub open spec fn node_of(w: Seq<EntityState>, x: u64) -> Option<NodeView> {
    if x < w.len() {
        w[x as int].node
    } else {
        None
    }
}

pub open spec fn graph_of(w: Seq<EntityState>, g: u64) -> Option<Seq<u64>> {
    if g < w.len() {
        w[g as int].graph
    } else {
        None
    }
}

/// `s` with every occurrence of `v` removed, keeping the order of the rest.
pub open spec fn without(s: Seq<u64>, v: u64) -> Seq<u64> {
    s.filter(|y: u64| y != v)
}

pub open spec fn with_node(w: Seq<EntityState>, x: u64, n: Option<NodeView>) -> Seq<EntityState> {
    if x < w.len() {
        w.update(x as int, EntityState { node: n, ..w[x as int] })
    } else {
        w
    }
}

pub open spec fn with_edge(w: Seq<EntityState>, x: u64, d: Option<Edge>) -> Seq<EntityState> {
    if x < w.len() {
        w.update(x as int, EntityState { edge: d, ..w[x as int] })
    } else {
        w
    }
}

pub open spec fn with_graph(w: Seq<EntityState>, x: u64, es: Option<Seq<u64>>) -> Seq<
    EntityState,
> {
    if x < w.len() {
        w.update(x as int, EntityState { graph: es, ..w[x as int] })
    } else {
        w
    }
}

/// Takes edge `e` out of the outputs of node `x`; a node left with no edge
/// at all is removed.
pub open spec fn drop_output(w: Seq<EntityState>, x: u64, e: u64) -> Seq<EntityState> {
    match node_of(w, x) {
        Some(n) => {
            let outputs = without(n.outputs, e);
            if n.inputs.len() == 0 && outputs.len() == 0 {
                with_node(w, x, None)
            } else {
                with_node(w, x, Some(NodeView { inputs: n.inputs, outputs }))
            }
        },
        None => w,
    }
}

/// Takes edge `e` out of the inputs of node `x`; a node left with no edge
/// at all is removed.
pub open spec fn drop_input(w: Seq<EntityState>, x: u64, e: u64) -> Seq<EntityState> {
    match node_of(w, x) {
        Some(n) => {
            let inputs = without(n.inputs, e);
            if inputs.len() == 0 && n.outputs.len() == 0 {
                with_node(w, x, None)
            } else {
                with_node(w, x, Some(NodeView { inputs, outputs: n.outputs }))
            }
        },
        None => w,
    }
}

/// Takes edge `e` out of graph `g`; a graph left with no edge is removed.
pub open spec fn drop_member(w: Seq<EntityState>, g: u64, e: u64) -> Seq<EntityState> {
    match graph_of(w, g) {
        Some(es) => {
            let rest = without(es, e);
            if rest.len() == 0 {
                with_graph(w, g, None)
            } else {
                with_graph(w, g, Some(rest))
            }
        },
        None => w,
    }
}

/// The edge component `d` leaves entity `e`, and `e` leaves the lists of the
/// nodes and the graph that `d` names.
pub open spec fn detach(w: Seq<EntityState>, e: u64, d: Edge) -> Seq<EntityState> {
    drop_member(
        drop_input(drop_output(with_edge(w, e, None), d.input, e), d.output, e),
        d.graph,
        e,
    )
}

/// Adds edge `e` to the outputs of `x`, giving `x` an empty node first if it
/// has none; an edge already listed is not listed twice.
pub open spec fn add_output(w: Seq<EntityState>, x: u64, e: u64) -> Seq<EntityState> {
    let n = match node_of(w, x) {
        Some(n) => n,
        None => empty_node(),
    };
    if n.outputs.contains(e) {
        with_node(w, x, Some(n))
    } else {
        with_node(w, x, Some(NodeView { inputs: n.inputs, outputs: n.outputs.push(e) }))
    }
}

/// Adds edge `e` to the inputs of `x`, giving `x` an empty node first if it
/// has none.
pub open spec fn add_input(w: Seq<EntityState>, x: u64, e: u64) -> Seq<EntityState> {
    let n = match node_of(w, x) {
        Some(n) => n,
        None => empty_node(),
    };
    if n.inputs.contains(e) {
        with_node(w, x, Some(n))
    } else {
        with_node(w, x, Some(NodeView { inputs: n.inputs.push(e), outputs: n.outputs }))
    }
}

/// Adds edge `e` to graph `g`, giving `g` an empty graph first if it has none.
pub open spec fn add_member(w: Seq<EntityState>, g: u64, e: u64) -> Seq<EntityState> {
    let es = match graph_of(w, g) {
        Some(es) => es,
        None => Seq::empty(),
    };
    if es.contains(e) {
        with_graph(w, g, Some(es))
    } else {
        with_graph(w, g, Some(es.push(e)))
    }
}

/// Lists edge `e` at the nodes and the graph that `d` names.
pub open spec fn attach(w: Seq<EntityState>, e: u64, d: Edge) -> Seq<EntityState> {
    add_member(add_input(add_output(w, d.input, e), d.output, e), d.graph, e)
}

/// Why an edge component is refused when it is inserted.
#[derive(Clone, Copy, Debug, PartialEq, Eq, Structural)]
pub enum EdgeFault {
    /// The edge's input is the edge itself.
    InputIsSelf,
    /// The edge's output is the edge itself.
    OutputIsSelf,
    /// The edge's graph is the edge itself.
    GraphIsSelf,
    /// The edge's input does not exist.
    InputMissing,
    /// The edge's input is another edge.
    InputIsEdge,
    /// The edge's output does not exist.
    OutputMissing,
    /// The edge's output is another edge.
    OutputIsEdge,
    /// The edge's graph does not exist.
    GraphMissing,
    /// The edge's graph is another edge.
    GraphIsEdge,
}

/// The first check, in the order the insert hook makes them, that an edge
/// component `d` inserted on `e` fails.
pub open spec fn edge_fault(w: Seq<EntityState>, e: u64, d: Edge) -> Option<EdgeFault> {
    if d.input == e {
        Some(EdgeFault::InputIsSelf)
    } else if d.output == e {
        Some(EdgeFault::OutputIsSelf)
    } else if d.graph == e {
        Some(EdgeFault::GraphIsSelf)
    } else if !alive(w, d.input) {
        Some(EdgeFault::InputMissing)
    } else if edge_of(w, d.input) is Some {
        Some(EdgeFault::InputIsEdge)
    } else if !alive(w, d.output) {
        Some(EdgeFault::OutputMissing)
    } else if edge_of(w, d.output) is Some {
        Some(EdgeFault::OutputIsEdge)
    } else if !alive(w, d.graph) {
        Some(EdgeFault::GraphMissing)
    } else if edge_of(w, d.graph) is Some {
        Some(EdgeFault::GraphIsEdge)
    } else {
        None
    }
}

/// The world after an edge component is taken off `e`.
pub open spec fn removing_edge(w: Seq<EntityState>, e: u64) -> Seq<EntityState> {
    match edge_of(w, e) {
        Some(d) => detach(w, e, d),
        None => w,
    }
}

/// The world after edge component `d` is inserted on `e`: an edge it
/// replaces is taken off first; a valid edge is listed at its nodes and
/// graph, a faulty one is taken off again.
pub open spec fn inserting_edge(w: Seq<EntityState>, e: u64, d: Edge) -> Seq<EntityState> {
    let w2 = with_edge(removing_edge(w, e), e, Some(d));
    if edge_fault(w, e, d) is None {
        attach(w2, e, d)
    } else {
        detach(w2, e, d)
    }
}

/// Each end of edge component `d` on `e` can hold a relationship: none is
/// `e` itself, and each is a living entity (it may carry any component,
/// an edge component too).
pub open spec fn ends_valid(w: Seq<EntityState>, e: u64, d: Edge) -> bool {
    &&& d.input != e && d.output != e && d.graph != e
    &&& alive(w, d.input) && alive(w, d.output) && alive(w, d.graph)
}

/// The world after edge `e` is linked to the ends of `d` as relationship
/// components link: the edge `e` carried is unlinked first; then, where
/// every end is valid, `e` carries `d` and is listed at its nodes and graph,
/// else it is left without an edge component.
pub open spec fn linking(w: Seq<EntityState>, e: u64, d: Edge) -> Seq<EntityState> {
    if ends_valid(w, e, d) {
        attach(with_edge(removing_edge(w, e), e, Some(d)), e, d)
    } else {
        removing_edge(w, e)
    }
}

/// The world after the edge components of `es` are taken off, in order.
pub open spec fn removing_edges(w: Seq<EntityState>, es: Seq<u64>) -> Seq<EntityState>
    decreases es.len(),
{
    if es.len() == 0 {
        w
    } else {
        removing_edge(removing_edges(w, es.drop_last()), es.last())
    }
}

/// The world after the node component of `x` is removed: every edge that it
/// lists loses its edge component, inputs first.
pub open spec fn removing_node(w: Seq<EntityState>, x: u64) -> Seq<EntityState> {
    match node_of(w, x) {
        Some(n) => with_node(removing_edges(w, n.inputs + n.outputs), x, None),
        None => w,
    }
}

/// The world after the graph component of `g` is removed: every edge that it
/// lists loses its edge component.
pub open spec fn removing_graph(w: Seq<EntityState>, g: u64) -> Seq<EntityState> {
    match graph_of(w, g) {
        Some(es) => with_graph(removing_edges(w, es), g, None),
        None => w,
    }
}

/// The world after an empty node component is inserted on `x`: a node that
/// `x` already has is replaced, so every edge it lists loses its edge
/// component, and the new node, emptied by their leaving, is removed too.
pub open spec fn inserting_node(w: Seq<EntityState>, x: u64) -> Seq<EntityState> {
    match node_of(w, x) {
        Some(n) => if n.inputs.len() == 0 && n.outputs.len() == 0 {
            w
        } else {
            removing_node(w, x)
        },
        None => with_node(w, x, Some(empty_node())),
    }
}

/// The world after an empty graph component is inserted on `g`: a graph
/// that `g` already has is replaced, so every edge it lists loses its edge
/// component, and the new graph, emptied by their leaving, is removed too.
pub open spec fn inserting_graph(w: Seq<EntityState>, g: u64) -> Seq<EntityState> {
    match graph_of(w, g) {
        Some(es) => if es.len() == 0 {
            w
        } else {
            removing_graph(w, g)
        },
        None => with_graph(w, g, Some(Seq::empty())),
    }
}

/// The world with the name of `x` replaced.
pub open spec fn with_name(w: Seq<EntityState>, x: u64, name: Option<Seq<char>>) -> Seq<
    EntityState,
> {
    if x < w.len() {
        w.update(x as int, EntityState { name, ..w[x as int] })
    } else {
        w
    }
}

/// The world with the markers of `x` replaced.
pub open spec fn with_markers(w: Seq<EntityState>, x: u64, markers: Markers) -> Seq<EntityState> {
    if x < w.len() {
        w.update(x as int, EntityState { markers, ..w[x as int] })
    } else {
        w
    }
}

/// The world after the cloneable components of `src` (its name and its
/// progress marker) are cloned onto `dst`, replacing those `dst` has.
pub open spec fn cloning_labels(w: Seq<EntityState>, src: u64, dst: u64) -> Seq<EntityState> {
    let s = w[src as int];
    let w1 = if s.name is Some {
        with_name(w, dst, s.name)
    } else {
        w
    };
    if s.markers.progress_edge {
        with_markers(w1, dst, Markers { progress_edge: true, ..w1[dst as int].markers })
    } else {
        w1
    }
}

/// The world after the cloneable components of `src` are moved onto `dst`.
pub open spec fn moving_labels(w: Seq<EntityState>, src: u64, dst: u64) -> Seq<EntityState> {
    let w1 = cloning_labels(w, src, dst);
    with_markers(
        with_name(w1, src, None),
        src,
        Markers { progress_edge: false, ..w1[src as int].markers },
    )
}

/// The edges that entity `y` lists: the inputs and outputs of its node,
/// then the edges of its graph.
pub open spec fn connections(w: Seq<EntityState>, y: u64) -> Seq<u64> {
    let ns = match node_of(w, y) {
        Some(n) => n.inputs + n.outputs,
        None => Seq::empty(),
    };
    let gs = match graph_of(w, y) {
        Some(es) => es,
        None => Seq::empty(),
    };
    ns + gs
}

/// Despawning any entity of `s` despawns only entities of `s`: every edge
/// that a living entity of `s` lists is in `s`.
pub open spec fn closed_under_connections(w: Seq<EntityState>, s: Set<u64>) -> bool {
    forall|y: u64, c: u64|
        #![trigger s.contains(y), connections(w, y).contains(c)]
        s.contains(y) && alive(w, y) && connections(w, y).contains(c) ==> s.contains(c)
}

/// Despawning `x` despawns `y`: `y` belongs to every set that holds `x` and
/// is closed under connections.
pub open spec fn despawned_with(w: Seq<EntityState>, x: u64, y: u64) -> bool {
    forall|s: Set<u64>| #[trigger] closed_under_connections(w, s) && s.contains(x) ==> s.contains(y)
}

/// The entities that despawning `x` despawns.
pub open spec fn despawn_set(w: Seq<EntityState>, x: u64) -> Set<u64> {
    Set::new(|y: u64| despawned_with(w, x, y))
}

/// `s` without the entities of `k`, keeping the order of the rest.
pub open spec fn pruned(s: Seq<u64>, k: Set<u64>) -> Seq<u64> {
    s.filter(|v: u64| !k.contains(v))
}

/// `s` lists some entity of `k`.
pub open spec fn touches(s: Seq<u64>, k: Set<u64>) -> bool {
    exists|i: int| 0 <= i < s.len() && k.contains(s[i])
}

/// A node after the edges of `k` left it: a node that lost an edge and was
/// left with none is removed.
pub open spec fn pruned_node(n: Option<NodeView>, k: Set<u64>) -> Option<NodeView> {
    match n {
        Some(n) => {
            let inputs = pruned(n.inputs, k);
            let outputs = pruned(n.outputs, k);
            if (touches(n.inputs, k) || touches(n.outputs, k)) && inputs.len() == 0
                && outputs.len() == 0 {
                None
            } else {
                Some(NodeView { inputs, outputs })
            }
        },
        None => None,
    }
}

/// A graph after the edges of `k` left it: a graph that lost an edge and
/// was left with none is removed.
pub open spec fn pruned_graph(g: Option<Seq<u64>>, k: Set<u64>) -> Option<Seq<u64>> {
    match g {
        Some(es) => {
            let rest = pruned(es, k);
            if touches(es, k) && rest.len() == 0 {
                None
            } else {
                Some(rest)
            }
        },
        None => None,
    }
}

/// What an entity keeps when the entities of `k` are despawned.
pub open spec fn pruned_entity(e: EntityState, k: Set<u64>) -> EntityState {
    EntityState { node: pruned_node(e.node, k), graph: pruned_graph(e.graph, k), ..e }
}

/// The world after `x` is despawned, with the despawn hooks of [`Node`] and
/// [`Graph`](crate::graph::components::Graph): every edge a despawned node
/// or graph lists is despawned in turn, and so on; each despawned edge
/// leaves the lists of the entities that survive.
pub open spec fn despawning(w: Seq<EntityState>, x: u64) -> Seq<EntityState> {
    if !alive(w, x) {
        w
    } else {
        Seq::new(
            w.len(),
            |i: int|
                if despawn_set(w, x).contains(i as u64) {
                    dead_entity()
                } else {
                    pruned_entity(w[i], despawn_set(w, x))
                },
        )
    }
}

/// Edge component `d` is consistent with the lists of the world.
pub open spec fn edge_listed(w: Seq<EntityState>, e: u64, d: Edge) -> bool {
    &&& d.input != e
    &&& d.output != e
    &&& d.graph != e
    &&& node_of(w, d.input) is Some
    &&& node_of(w, d.input)->0.outputs.contains(e)
    &&& node_of(w, d.output) is Some
    &&& node_of(w, d.output)->0.inputs.contains(e)
    &&& graph_of(w, d.graph) is Some
    &&& graph_of(w, d.graph)->0.contains(e)
}

/// `e` is an edge that ends at `x`.
pub open spec fn ends_at(w: Seq<EntityState>, e: u64, x: u64) -> bool {
    match edge_of(w, e) {
        Some(d) => d.output == x,
        None => false,
    }
}

/// `e` is an edge that starts from `x`.
pub open spec fn starts_at(w: Seq<EntityState>, e: u64, x: u64) -> bool {
    match edge_of(w, e) {
        Some(d) => d.input == x,
        None => false,
    }
}

/// `e` is an edge of graph `g`.
pub open spec fn belongs_to(w: Seq<EntityState>, e: u64, g: u64) -> bool {
    match edge_of(w, e) {
        Some(d) => d.graph == g,
        None => false,
    }
}

/// Every edge a node lists ends or starts at the node, and is listed once.
pub open spec fn node_listed(w: Seq<EntityState>, x: u64, n: NodeView) -> bool {
    &&& n.inputs.no_duplicates()
    &&& n.outputs.no_duplicates()
    &&& forall|i: int| 0 <= i < n.inputs.len() ==> #[trigger] ends_at(w, n.inputs[i], x)
    &&& forall|i: int| 0 <= i < n.outputs.len() ==> #[trigger] starts_at(w, n.outputs[i], x)
}

/// Every edge a graph lists belongs to the graph, and is listed once.
pub open spec fn graph_listed(w: Seq<EntityState>, g: u64, es: Seq<u64>) -> bool {
    &&& es.no_duplicates()
    &&& forall|i: int| 0 <= i < es.len() ==> #[trigger] belongs_to(w, es[i], g)
}

/// A node lists at least one edge, as an input or as an output.
pub open spec fn node_nonempty(n: NodeView) -> bool {
    n.inputs.len() > 0 || n.outputs.len() > 0
}

/// No node and no graph of the world is empty: every node lists an edge,
/// and every graph lists an edge.
pub open spec fn lists_nonempty(w: Seq<EntityState>) -> bool {
    &&& forall|x: u64| (#[trigger] node_of(w, x)) is Some ==> node_nonempty(node_of(w, x)->0)
    &&& forall|g: u64| (#[trigger] graph_of(w, g)) is Some ==> graph_of(w, g)->0.len() > 0
}

/// The world is well formed: despawned entities hold nothing, and the edge
/// components agree with the lists of the node and graph components.
pub open spec fn wf(w: Seq<EntityState>) -> bool {
    &&& forall|x: u64|
        #![trigger w[x as int]]
        x < w.len() && !w[x as int].alive ==> {
            &&& w[x as int].node is None
            &&& w[x as int].edge is None
            &&& w[x as int].graph is None
        }
    &&& forall|e: u64| (#[trigger] edge_of(w, e)) is Some ==> edge_listed(w, e, edge_of(w, e)->0)
    &&& forall|x: u64| (#[trigger] node_of(w, x)) is Some ==> node_listed(w, x, node_of(w, x)->0)
    &&& forall|g: u64|
        (#[trigger] graph_of(w, g)) is Some ==> graph_listed(w, g, graph_of(w, g)->0)
}

} // verus!
