//! Proofs that no operation on edges, and no despawn, leaves a node or a
//! graph without edges.
use vstd::prelude::*;

use crate::graph::cascade::lemma_pruned;
use crate::graph::components::Edge;
use crate::graph::model::{
    add_input, add_output, alive, attach, despawn_set, despawning,
    detach, drop_input, drop_member, drop_output, edge_of, empty_node, graph_of, inserting_edge,
    linking, lists_nonempty, node_nonempty, node_of, pruned_graph, pruned_node,
    removing_edge, with_edge, with_graph, with_node, NodeView, EntityState,
};

verus! {

/// Replacing the node of `x` by a node that lists an edge, or by none,
/// leaves no node or graph empty.
proof fn lemma_ne_with_node(w: Seq<EntityState>, x: u64, n: Option<NodeView>)
    requires
        lists_nonempty(w),
        n is Some ==> node_nonempty(n->0),
    ensures
        lists_nonempty(with_node(w, x, n)),
{
    let w2 = with_node(w, x, n);
    assert forall|y: u64| (#[trigger] node_of(w2, y)) is Some implies node_nonempty(node_of(w2, y)->0) by {
        if !(x < w.len() && y == x) {
            assert(node_of(w2, y) == node_of(w, y));
        }
    }
    assert forall|g: u64| (#[trigger] graph_of(w2, g)) is Some implies graph_of(w2, g)->0.len() > 0 by {
        assert(graph_of(w2, g) == graph_of(w, g));
    }
}

/// Replacing the graph of `g` by one that lists an edge, or by none, leaves
/// no node or graph empty.
proof fn lemma_ne_with_graph(w: Seq<EntityState>, g: u64, es: Option<Seq<u64>>)
    requires
        lists_nonempty(w),
        es is Some ==> es->0.len() > 0,
    ensures
        lists_nonempty(with_graph(w, g, es)),
{
    let w2 = with_graph(w, g, es);
    assert forall|y: u64| (#[trigger] node_of(w2, y)) is Some implies node_nonempty(node_of(w2, y)->0) by {
        assert(node_of(w2, y) == node_of(w, y));
    }
    assert forall|h: u64| (#[trigger] graph_of(w2, h)) is Some implies graph_of(w2, h)->0.len() > 0 by {
        if !(g < w.len() && h == g) {
            assert(graph_of(w2, h) == graph_of(w, h));
        }
    }
}

/// Changing an edge component changes no list.
proof fn lemma_ne_with_edge(w: Seq<EntityState>, e: u64, d: Option<Edge>)
    requires
        lists_nonempty(w),
    ensures
        lists_nonempty(with_edge(w, e, d)),
{
    let w2 = with_edge(w, e, d);
    assert forall|y: u64| (#[trigger] node_of(w2, y)) is Some implies node_nonempty(node_of(w2, y)->0) by {
        assert(node_of(w2, y) == node_of(w, y));
    }
    assert forall|h: u64| (#[trigger] graph_of(w2, h)) is Some implies graph_of(w2, h)->0.len() > 0 by {
        assert(graph_of(w2, h) == graph_of(w, h));
    }
}

/// Taking an edge out of the lists of its nodes and graph, and removing
/// what is left empty, leaves no node or graph empty.
proof fn lemma_ne_detach(w: Seq<EntityState>, e: u64, d: Edge)
    requires
        lists_nonempty(w),
    ensures
        lists_nonempty(detach(w, e, d)),
{
    let wa = with_edge(w, e, None);
    lemma_ne_with_edge(w, e, None);
    let wb = drop_output(wa, d.input, e);
    match node_of(wa, d.input) {
        Some(n) => {
            let outputs = crate::graph::model::without(n.outputs, e);
            if n.inputs.len() == 0 && outputs.len() == 0 {
                lemma_ne_with_node(wa, d.input, None);
            } else {
                lemma_ne_with_node(wa, d.input, Some(NodeView { inputs: n.inputs, outputs }));
            }
        },
        None => {},
    }
    let wc = drop_input(wb, d.output, e);
    match node_of(wb, d.output) {
        Some(n) => {
            let inputs = crate::graph::model::without(n.inputs, e);
            if inputs.len() == 0 && n.outputs.len() == 0 {
                lemma_ne_with_node(wb, d.output, None);
            } else {
                lemma_ne_with_node(wb, d.output, Some(NodeView { inputs, outputs: n.outputs }));
            }
        },
        None => {},
    }
    match graph_of(wc, d.graph) {
        Some(es) => {
            let rest = crate::graph::model::without(es, e);
            if rest.len() == 0 {
                lemma_ne_with_graph(wc, d.graph, None);
            } else {
                lemma_ne_with_graph(wc, d.graph, Some(rest));
            }
        },
        None => {},
    }
}

/// Listing an edge at its nodes and graph leaves no node or graph empty.
proof fn lemma_ne_attach(w: Seq<EntityState>, e: u64, d: Edge)
    requires
        lists_nonempty(w),
    ensures
        lists_nonempty(attach(w, e, d)),
{
    let n = match node_of(w, d.input) {
        Some(n) => n,
        None => empty_node(),
    };
    if n.outputs.contains(e) {
        lemma_ne_with_node(w, d.input, Some(n));
    } else {
        lemma_ne_with_node(w, d.input, Some(NodeView { inputs: n.inputs, outputs: n.outputs.push(e) }));
    }
    let wa = add_output(w, d.input, e);
    let m = match node_of(wa, d.output) {
        Some(m) => m,
        None => empty_node(),
    };
    if m.inputs.contains(e) {
        lemma_ne_with_node(wa, d.output, Some(m));
    } else {
        lemma_ne_with_node(wa, d.output, Some(NodeView { inputs: m.inputs.push(e), outputs: m.outputs }));
    }
    let wb = add_input(wa, d.output, e);
    let es = match graph_of(wb, d.graph) {
        Some(es) => es,
        None => Seq::empty(),
    };
    if es.contains(e) {
        lemma_ne_with_graph(wb, d.graph, Some(es));
    } else {
        lemma_ne_with_graph(wb, d.graph, Some(es.push(e)));
    }
}

/// Taking the edge component off `e` leaves no node or graph empty.
pub proof fn lemma_ne_removing_edge(w: Seq<EntityState>, e: u64)
    requires
        lists_nonempty(w),
    ensures
        lists_nonempty(removing_edge(w, e)),
{
    if let Some(d) = edge_of(w, e) {
        lemma_ne_detach(w, e, d);
    }
}

/// Inserting an edge component leaves no node or graph empty.
pub proof fn lemma_ne_inserting_edge(w: Seq<EntityState>, e: u64, d: Edge)
    requires
        lists_nonempty(w),
    ensures
        lists_nonempty(inserting_edge(w, e, d)),
{
    lemma_ne_removing_edge(w, e);
    lemma_ne_with_edge(removing_edge(w, e), e, Some(d));
    let w2 = with_edge(removing_edge(w, e), e, Some(d));
    lemma_ne_attach(w2, e, d);
    lemma_ne_detach(w2, e, d);
}

/// Linking an edge to its ends leaves no node or graph empty.
pub proof fn lemma_ne_linking(w: Seq<EntityState>, e: u64, d: Edge)
    requires
        lists_nonempty(w),
    ensures
        lists_nonempty(linking(w, e, d)),
{
    lemma_ne_removing_edge(w, e);
    lemma_ne_with_edge(removing_edge(w, e), e, Some(d));
    lemma_ne_attach(with_edge(removing_edge(w, e), e, Some(d)), e, d);
}

/// Despawning an entity leaves no node or graph empty: a node or graph that
/// loses its last edge is removed with it.
pub proof fn lemma_ne_despawning(w: Seq<EntityState>, x: u64)
    requires
        lists_nonempty(w),
    ensures
        lists_nonempty(despawning(w, x)),
{
    if alive(w, x) {
        let k = despawn_set(w, x);
        let w2 = despawning(w, x);
        assert forall|y: u64| (#[trigger] node_of(w2, y)) is Some implies node_nonempty(node_of(w2, y)->0) by {
            let n = node_of(w, y)->0;
            assert(node_of(w2, y) == pruned_node(node_of(w, y), k));
            lemma_pruned(n.inputs, k);
            lemma_pruned(n.outputs, k);
        }
        assert forall|g: u64| (#[trigger] graph_of(w2, g)) is Some implies graph_of(w2, g)->0.len() > 0 by {
            let es = graph_of(w, g)->0;
            assert(graph_of(w2, g) == pruned_graph(graph_of(w, g), k));
            lemma_pruned(es, k);
        }
    }
}

} // verus!
