//! Proofs about despawning: the cascade through the edges that despawned
//! nodes and graphs list.
use vstd::prelude::*;

use crate::graph::components::Edge;
use crate::graph::lemmas::lemma_without;
use crate::graph::model::{
    alive, belongs_to, closed_under_connections, connections, dead_entity, despawn_set,
    despawned_with, despawning, detach, drop_input, drop_member, drop_output, edge_listed,
    edge_of, ends_at, graph_listed, graph_of, node_listed, node_of, pruned, pruned_entity,
    pruned_graph, pruned_node, removing_edge, starts_at, touches, wf, with_edge, without,
    EntityState, NodeView,
};

verus! {

/// What pruning a list keeps and drops.
#[verifier::spinoff_prover]
pub proof fn lemma_pruned(s: Seq<u64>, k: Set<u64>)
    ensures
        forall|v: u64| #[trigger] pruned(s, k).contains(v) <==> (s.contains(v) && !k.contains(v)),
        s.no_duplicates() ==> pruned(s, k).no_duplicates(),
        !touches(s, k) ==> pruned(s, k) == s,
        pruned(s, k).len() <= s.len(),
    decreases s.len(),
{
    reveal_with_fuel(Seq::filter, 1);
    if s.len() == 0 {
        assert(pruned(s, k) =~= s);
    } else {
        let t = s.drop_last();
        let x = s.last();
        lemma_pruned(t, k);
        let p = pruned(t, k);
        assert(forall|y: u64| s.contains(y) <==> (t.contains(y) || y == x)) by {
            assert forall|y: u64| s.contains(y) implies (t.contains(y) || y == x) by {
                let j = choose|j: int| 0 <= j < s.len() && s[j] == y;
                if j < s.len() - 1 {
                    assert(t[j] == y);
                }
            }
            assert forall|y: u64| t.contains(y) implies s.contains(y) by {
                let j = choose|j: int| 0 <= j < t.len() && t[j] == y;
                assert(s[j] == y);
            }
            assert(s[s.len() - 1] == x);
        }
        assert(touches(t, k) ==> touches(s, k)) by {
            if touches(t, k) {
                let i = choose|i: int| 0 <= i < t.len() && k.contains(t[i]);
                assert(s[i] == t[i]);
            }
        }
        if s.no_duplicates() {
            assert(t.no_duplicates()) by {
                assert forall|i: int, j: int|
                    0 <= i < t.len() && 0 <= j < t.len() && i != j implies t[i] != t[j] by {
                    assert(s[i] == t[i] && s[j] == t[j]);
                }
            }
        }
        if !k.contains(x) {
            assert(pruned(s, k) == p.push(x));
            assert forall|y: u64| #[trigger] pruned(s, k).contains(y) <==> (s.contains(y)
                && !k.contains(y)) by {
                if p.push(x).contains(y) && y != x {
                    let j = choose|j: int| 0 <= j < p.push(x).len() && p.push(x)[j] == y;
                    assert(p[j] == y);
                }
                if p.contains(y) {
                    let j = choose|j: int| 0 <= j < p.len() && p[j] == y;
                    assert(p.push(x)[j] == y);
                }
                assert(p.push(x)[p.len() as int] == x);
            }
            if s.no_duplicates() {
                assert(!t.contains(x)) by {
                    if t.contains(x) {
                        let j = choose|j: int| 0 <= j < t.len() && t[j] == x;
                        assert(s[j] == s[s.len() - 1]);
                    }
                }
                assert(!p.contains(x));
                assert(p.push(x).no_duplicates()) by {
                    assert forall|i: int, j: int|
                        0 <= i < p.push(x).len() && 0 <= j < p.push(x).len() && i != j implies p.push(
                        x,
                    )[i] != p.push(x)[j] by {
                        if i < p.len() && j < p.len() {
                            assert(p.push(x)[i] == p[i] && p.push(x)[j] == p[j]);
                        } else if i < p.len() {
                            assert(p.push(x)[i] == p[i]);
                        } else if j < p.len() {
                            assert(p.push(x)[j] == p[j]);
                        }
                    }
                }
            }
            if !touches(s, k) {
                assert(!touches(t, k));
                assert(p == t);
                assert(s =~= t.push(x));
            }
        } else {
            assert(pruned(s, k) == p);
            assert(touches(s, k)) by {
                assert(k.contains(s[s.len() - 1]));
            }
        }
    }
}

/// Pruning one more entity is dropping it from the pruned list.
#[verifier::spinoff_prover]
pub proof fn lemma_pruned_insert(s: Seq<u64>, k: Set<u64>, z: u64)
    ensures
        pruned(s, k.insert(z)) == without(pruned(s, k), z),
        touches(s, k.insert(z)) == (touches(s, k) || s.contains(z)),
    decreases s.len(),
{
    reveal_with_fuel(Seq::filter, 1);
    if s.len() == 0 {
        assert(pruned(s, k.insert(z)) =~= without(pruned(s, k), z));
    } else {
        let t = s.drop_last();
        let x = s.last();
        lemma_pruned_insert(t, k, z);
        let q = pruned(t, k);
        assert(q.push(x).drop_last() =~= q);
        assert(q.push(x).last() == x);
        if k.contains(x) {
            assert(pruned(s, k) == q);
        } else {
            assert(pruned(s, k) == q.push(x));
            assert(without(q.push(x), z) == if x != z {
                without(q, z).push(x)
            } else {
                without(q, z)
            });
        }
    }
    assert(touches(s, k.insert(z)) == (touches(s, k) || s.contains(z))) by {
        if touches(s, k.insert(z)) {
            let i = choose|i: int| 0 <= i < s.len() && k.insert(z).contains(s[i]);
            if s[i] != z {
                assert(k.contains(s[i]));
            }
        }
        if touches(s, k) {
            let i = choose|i: int| 0 <= i < s.len() && k.contains(s[i]);
            assert(k.insert(z).contains(s[i]));
        }
        if s.contains(z) {
            let i = choose|i: int| 0 <= i < s.len() && s[i] == z;
            assert(k.insert(z).contains(s[i]));
        }
    }
}

/// The world with the entities of `k` despawned and the rest pruned.
pub open spec fn pruned_world(w0: Seq<EntityState>, k: Set<u64>) -> Seq<EntityState> {
    Seq::new(
        w0.len(),
        |i: int|
            if k.contains(i as u64) {
                dead_entity()
            } else {
                pruned_entity(w0[i], k)
            },
    )
}

/// Part way through a despawn: the entities of `k`, all alive at the start,
/// are despawned and the rest pruned.
pub open spec fn cascade_inv(w0: Seq<EntityState>, w: Seq<EntityState>, k: Set<u64>) -> bool {
    &&& w == pruned_world(w0, k)
    &&& w0.len() <= u64::MAX
    &&& forall|y: u64| #[trigger] k.contains(y) ==> alive(w0, y)
}

/// The lists of an entity in the middle of a despawn are its first lists
/// pruned.
#[verifier::spinoff_prover]
pub proof fn lemma_cascade_connections(w0: Seq<EntityState>, w: Seq<EntityState>, k: Set<u64>, z: u64)
    requires
        wf(w0),
        cascade_inv(w0, w, k),
        alive(w, z),
    ensures
        forall|c: u64| #[trigger] connections(w, z).contains(c) ==> connections(w0, z).contains(c),
        forall|c: u64|
            #[trigger] connections(w0, z).contains(c) ==> k.contains(c) || connections(w, z).contains(c),
{
    let e0 = w0[z as int];
    let e = w[z as int];
    assert(!k.contains(z));
    assert(e == pruned_entity(e0, k));
    let ns0 = match e0.node {
        Some(n) => n.inputs + n.outputs,
        None => Seq::<u64>::empty(),
    };
    let gs0 = match e0.graph {
        Some(es) => es,
        None => Seq::<u64>::empty(),
    };
    let ns = match e.node {
        Some(n) => n.inputs + n.outputs,
        None => Seq::<u64>::empty(),
    };
    let gs = match e.graph {
        Some(es) => es,
        None => Seq::<u64>::empty(),
    };
    assert(connections(w0, z) == ns0 + gs0);
    assert(connections(w, z) == ns + gs);
    assert forall|c: u64| #[trigger] (ns + gs).contains(c) implies (ns0 + gs0).contains(c) by {
        let j = choose|j: int| 0 <= j < (ns + gs).len() && (ns + gs)[j] == c;
        if j < ns.len() {
            let n0 = e0.node->0;
            lemma_pruned(n0.inputs, k);
            lemma_pruned(n0.outputs, k);
            let n = e.node->0;
            if j < n.inputs.len() {
                assert(n.inputs.contains(c));
                let i = choose|i: int| 0 <= i < n0.inputs.len() && n0.inputs[i] == c;
                assert((ns0 + gs0)[i] == c);
            } else {
                assert(n.outputs[j - n.inputs.len()] == c);
                assert(n.outputs.contains(c));
                let i = choose|i: int| 0 <= i < n0.outputs.len() && n0.outputs[i] == c;
                assert((ns0 + gs0)[n0.inputs.len() + i] == c);
            }
        } else {
            let g0 = e0.graph->0;
            lemma_pruned(g0, k);
            assert(gs[j - ns.len()] == c);
            assert(gs.contains(c));
            let i = choose|i: int| 0 <= i < g0.len() && g0[i] == c;
            assert((ns0 + gs0)[ns0.len() + i] == c);
        }
    }
    assert forall|c: u64| #[trigger] (ns0 + gs0).contains(c) implies k.contains(c) || (
    ns + gs).contains(c) by {
        if !k.contains(c) {
            let j = choose|j: int| 0 <= j < (ns0 + gs0).len() && (ns0 + gs0)[j] == c;
            if j < ns0.len() {
                let n0 = e0.node->0;
                lemma_pruned(n0.inputs, k);
                lemma_pruned(n0.outputs, k);
                let n = e.node->0;
                if j < n0.inputs.len() {
                    assert(n0.inputs.contains(c));
                    assert(pruned(n0.inputs, k).contains(c));
                    assert(e.node is Some);
                    let i = choose|i: int| 0 <= i < n.inputs.len() && n.inputs[i] == c;
                    assert((ns + gs)[i] == c);
                } else {
                    assert(n0.outputs[j - n0.inputs.len()] == c);
                    assert(n0.outputs.contains(c));
                    assert(pruned(n0.outputs, k).contains(c));
                    assert(e.node is Some);
                    let i = choose|i: int| 0 <= i < n.outputs.len() && n.outputs[i] == c;
                    assert((ns + gs)[n.inputs.len() + i] == c);
                }
            } else {
                let g0 = e0.graph->0;
                lemma_pruned(g0, k);
                assert(gs0[j - ns0.len()] == c);
                assert(g0.contains(c));
                assert(pruned(g0, k).contains(c));
                assert(e.graph is Some);
                let g = e.graph->0;
                let i = choose|i: int| 0 <= i < g.len() && g[i] == c;
                assert((ns + gs)[ns.len() + i] == c);
            }
        }
    }
}

/// The world with `z` despawned: its slot is cleared.
pub open spec fn killing(w: Seq<EntityState>, z: u64) -> Seq<EntityState> {
    if z < w.len() {
        w.update(z as int, dead_entity())
    } else {
        w
    }
}

/// Pruning an entity that a list does not hold changes nothing.
pub proof fn lemma_prune_absent(s: Seq<u64>, k: Set<u64>, z: u64)
    requires
        !s.contains(z),
    ensures
        pruned(s, k.insert(z)) == pruned(s, k),
        touches(s, k.insert(z)) == touches(s, k),
{
    lemma_pruned_insert(s, k, z);
    lemma_pruned(s, k);
    lemma_without(pruned(s, k), z);
}

/// Pruning an entity that a list holds drops it from the pruned list.
pub proof fn lemma_prune_present(s: Seq<u64>, k: Set<u64>, z: u64)
    requires
        s.contains(z),
        !k.contains(z),
    ensures
        pruned(s, k.insert(z)) == without(pruned(s, k), z),
        touches(s, k.insert(z)),
        pruned(s, k).contains(z),
        pruned(s, k).len() > 0,
{
    lemma_pruned_insert(s, k, z);
    lemma_pruned(s, k);
    assert(pruned(s, k).contains(z));
    let i = choose|i: int| 0 <= i < pruned(s, k).len() && pruned(s, k)[i] == z;
}

/// The node of a surviving entity after edge `z` is despawned.
#[verifier::spinoff_prover]
pub proof fn lemma_step_node(
    w0: Seq<EntityState>,
    w: Seq<EntityState>,
    k: Set<u64>,
    z: u64,
    d: Edge,
    y: u64,
)
    requires
        wf(w0),
        cascade_inv(w0, w, k),
        !k.contains(z),
        edge_of(w0, z) == Some(d),
        y < w0.len(),
        !k.contains(y),
        y != z,
    ensures
        node_of(detach(w, z, d), y) == pruned_node(node_of(w0, y), k.insert(z)),
{
    let k2 = k.insert(z);
    let n0 = node_of(w0, y);
    assert(w[y as int] == pruned_entity(w0[y as int], k));
    assert(node_of(w, y) == pruned_node(n0, k));
    let w1 = with_edge(w, z, None);
    assert(node_of(w1, y) == node_of(w, y));
    let w2 = drop_output(w1, d.input, z);
    let w3 = drop_input(w2, d.output, z);
    let w4 = drop_member(w3, d.graph, z);
    assert(node_of(w4, y) == node_of(w3, y));
    assert(edge_listed(w0, z, d));
    match n0 {
        None => {
            assert(d.input != y && d.output != y);
            assert(node_of(w2, y) == node_of(w1, y));
            assert(node_of(w3, y) == node_of(w2, y));
        },
        Some(n) => {
            assert(node_listed(w0, y, n));
            assert(n.outputs.contains(z) <==> d.input == y) by {
                if n.outputs.contains(z) {
                    let i = choose|i: int| 0 <= i < n.outputs.len() && n.outputs[i] == z;
                    assert(starts_at(w0, n.outputs[i], y));
                }
            }
            assert(n.inputs.contains(z) <==> d.output == y) by {
                if n.inputs.contains(z) {
                    let i = choose|i: int| 0 <= i < n.inputs.len() && n.inputs[i] == z;
                    assert(ends_at(w0, n.inputs[i], y));
                }
            }
            if n.outputs.contains(z) {
                lemma_prune_present(n.outputs, k, z);
            } else {
                lemma_prune_absent(n.outputs, k, z);
            }
            if n.inputs.contains(z) {
                lemma_prune_present(n.inputs, k, z);
            } else {
                lemma_prune_absent(n.inputs, k, z);
            }
            let ins = pruned(n.inputs, k);
            let outs = pruned(n.outputs, k);
            lemma_without(ins, z);
            lemma_without(outs, z);
            if d.input == y {
                assert(node_of(w1, y) == Some(NodeView { inputs: ins, outputs: outs }));
                if d.output == y {
                    assert(node_of(w2, y) == Some(
                        NodeView { inputs: ins, outputs: without(outs, z) },
                    ));
                    assert(node_of(w3, y) == pruned_node(n0, k2));
                } else {
                    assert(node_of(w2, y) == pruned_node(n0, k2));
                    assert(node_of(w3, y) == node_of(w2, y));
                }
            } else {
                assert(node_of(w2, y) == node_of(w1, y));
                if d.output == y {
                    assert(node_of(w1, y) == Some(NodeView { inputs: ins, outputs: outs }));
                    assert(node_of(w3, y) == pruned_node(n0, k2));
                } else {
                    assert(node_of(w3, y) == node_of(w2, y));
                    assert(pruned_node(n0, k2) == pruned_node(n0, k));
                }
            }
        },
    }
}

/// The graph of a surviving entity after edge `z` is despawned.
#[verifier::spinoff_prover]
pub proof fn lemma_step_graph(
    w0: Seq<EntityState>,
    w: Seq<EntityState>,
    k: Set<u64>,
    z: u64,
    d: Edge,
    y: u64,
)
    requires
        wf(w0),
        cascade_inv(w0, w, k),
        !k.contains(z),
        edge_of(w0, z) == Some(d),
        y < w0.len(),
        !k.contains(y),
        y != z,
    ensures
        graph_of(detach(w, z, d), y) == pruned_graph(graph_of(w0, y), k.insert(z)),
{
    let k2 = k.insert(z);
    let g0 = graph_of(w0, y);
    assert(w[y as int] == pruned_entity(w0[y as int], k));
    assert(graph_of(w, y) == pruned_graph(g0, k));
    let w1 = with_edge(w, z, None);
    let w2 = drop_output(w1, d.input, z);
    let w3 = drop_input(w2, d.output, z);
    let w4 = drop_member(w3, d.graph, z);
    assert(graph_of(w3, y) == graph_of(w, y));
    assert(edge_listed(w0, z, d));
    match g0 {
        None => {
            assert(d.graph != y);
        },
        Some(es) => {
            assert(graph_listed(w0, y, es));
            assert(es.contains(z) <==> d.graph == y) by {
                if es.contains(z) {
                    let i = choose|i: int| 0 <= i < es.len() && es[i] == z;
                    assert(belongs_to(w0, es[i], y));
                }
            }
            if es.contains(z) {
                lemma_prune_present(es, k, z);
                lemma_without(pruned(es, k), z);
            } else {
                lemma_prune_absent(es, k, z);
            }
        },
    }
}

/// One entry of the world after a living edge `z` is despawned.
#[verifier::spinoff_prover]
#[verifier::rlimit(40)]
proof fn lemma_step_at_edge(
    w0: Seq<EntityState>,
    w: Seq<EntityState>,
    k: Set<u64>,
    z: u64,
    d: Edge,
    y: u64,
)
    requires
        wf(w0),
        cascade_inv(w0, w, k),
        alive(w, z),
        !k.contains(z),
        edge_of(w0, z) == Some(d),
        edge_of(w, z) == Some(d),
        y < w0.len(),
        y != z,
    ensures
        detach(w, z, d)[y as int] == pruned_world(w0, k.insert(z))[y as int],
{
    let i = y as int;
    let wa = with_edge(w, z, None);
    let wb = drop_output(wa, d.input, z);
    let wc = drop_input(wb, d.output, z);
    let w1 = drop_member(wc, d.graph, z);
    assert(w1 == detach(w, z, d));
    assert(wa[i] == w[i]);
    assert(wb[i].alive == wa[i].alive && wb[i].edge == wa[i].edge && wb[i].name == wa[i].name
        && wb[i].markers == wa[i].markers && wb[i].graph == wa[i].graph);
    assert(wc[i].alive == wb[i].alive && wc[i].edge == wb[i].edge && wc[i].name == wb[i].name
        && wc[i].markers == wb[i].markers && wc[i].graph == wb[i].graph);
    assert(w1[i].alive == wc[i].alive && w1[i].edge == wc[i].edge && w1[i].name == wc[i].name
        && w1[i].markers == wc[i].markers && w1[i].node == wc[i].node);
    if k.contains(y) {
        assert(w[i] == dead_entity());
        assert(node_of(w, y) is None && graph_of(w, y) is None);
        assert(wb[i] == wa[i]);
        assert(wc[i] == wb[i]);
        assert(w1[i] == wc[i]);
    } else {
        lemma_step_node(w0, w, k, z, d, y);
        lemma_step_graph(w0, w, k, z, d, y);
        assert(node_of(w1, y) == w1[i].node);
        assert(graph_of(w1, y) == w1[i].graph);
        assert(w[i] == pruned_entity(w0[i], k));
    }
}

/// One entry of the world after a living entity `z` with no edge component
/// is despawned.
#[verifier::spinoff_prover]
proof fn lemma_step_at_plain(w0: Seq<EntityState>, w: Seq<EntityState>, k: Set<u64>, z: u64, y: u64)
    requires
        wf(w0),
        cascade_inv(w0, w, k),
        edge_of(w0, z) is None,
        y < w0.len(),
        y != z,
        !k.contains(y),
    ensures
        w[y as int] == pruned_world(w0, k.insert(z))[y as int],
{
    let i = y as int;
    match w0[i].node {
        Some(n) => {
            assert(node_of(w0, y) == Some(n));
            assert(node_listed(w0, y, n));
            assert(!n.inputs.contains(z)) by {
                if n.inputs.contains(z) {
                    let j = choose|j: int| 0 <= j < n.inputs.len() && n.inputs[j] == z;
                    assert(ends_at(w0, n.inputs[j], y));
                }
            }
            assert(!n.outputs.contains(z)) by {
                if n.outputs.contains(z) {
                    let j = choose|j: int| 0 <= j < n.outputs.len() && n.outputs[j] == z;
                    assert(starts_at(w0, n.outputs[j], y));
                }
            }
            lemma_prune_absent(n.inputs, k, z);
            lemma_prune_absent(n.outputs, k, z);
        },
        None => {},
    }
    match w0[i].graph {
        Some(es) => {
            assert(graph_of(w0, y) == Some(es));
            assert(graph_listed(w0, y, es));
            assert(!es.contains(z)) by {
                if es.contains(z) {
                    let j = choose|j: int| 0 <= j < es.len() && es[j] == z;
                    assert(belongs_to(w0, es[j], y));
                }
            }
            lemma_prune_absent(es, k, z);
        },
        None => {},
    }
}

/// Despawning one more living entity keeps the despawn on course.
pub proof fn lemma_cascade_step(w0: Seq<EntityState>, w: Seq<EntityState>, k: Set<u64>, z: u64)
    requires
        wf(w0),
        cascade_inv(w0, w, k),
        alive(w, z),
    ensures
        cascade_inv(w0, killing(removing_edge(w, z), z), k.insert(z)),
{
    let k2 = k.insert(z);
    assert(!k.contains(z)) by {
        if k.contains(z) {
            assert(w[z as int] == dead_entity());
        }
    }
    assert(w[z as int] == pruned_entity(w0[z as int], k));
    assert(alive(w0, z));
    let w2 = killing(removing_edge(w, z), z);
    assert(removing_edge(w, z).len() == w.len()) by {
        assert(w[z as int].edge == w0[z as int].edge);
    }
    assert(edge_of(w, z) == edge_of(w0, z));
    assert forall|i: int| 0 <= i < w0.len() implies #[trigger] w2[i] == pruned_world(w0, k2)[i] by {
        let y = i as u64;
        assert(y as int == i);
        if y != z {
            match edge_of(w0, z) {
                Some(d) => lemma_step_at_edge(w0, w, k, z, d, y),
                None => {
                    if !k.contains(y) {
                        lemma_step_at_plain(w0, w, k, z, y);
                    }
                },
            }
        }
    }
    assert(w2 =~= pruned_world(w0, k2));
}

/// Every edge an entity lists is among its connections.
pub proof fn lemma_connections_hold(w: Seq<EntityState>, t: u64)
    ensures
        node_of(w, t) is Some ==> forall|f: u64|
            #[trigger] node_of(w, t)->0.outputs.contains(f) ==> connections(w, t).contains(f),
        node_of(w, t) is Some ==> forall|f: u64|
            #[trigger] node_of(w, t)->0.inputs.contains(f) ==> connections(w, t).contains(f),
        graph_of(w, t) is Some ==> forall|f: u64|
            #[trigger] graph_of(w, t)->0.contains(f) ==> connections(w, t).contains(f),
{
    let ns = match node_of(w, t) {
        Some(n) => n.inputs + n.outputs,
        None => Seq::<u64>::empty(),
    };
    let gs = match graph_of(w, t) {
        Some(es) => es,
        None => Seq::<u64>::empty(),
    };
    assert(connections(w, t) == ns + gs);
    if node_of(w, t) is Some {
        let n = node_of(w, t)->0;
        assert forall|f: u64| #[trigger] n.outputs.contains(f) implies connections(w, t).contains(f) by {
            let i = choose|i: int| 0 <= i < n.outputs.len() && n.outputs[i] == f;
            assert((ns + gs)[n.inputs.len() + i] == f);
        }
        assert forall|f: u64| #[trigger] n.inputs.contains(f) implies connections(w, t).contains(f) by {
            let i = choose|i: int| 0 <= i < n.inputs.len() && n.inputs[i] == f;
            assert((ns + gs)[i] == f);
        }
    }
    if graph_of(w, t) is Some {
        let es = graph_of(w, t)->0;
        assert forall|f: u64| #[trigger] es.contains(f) implies connections(w, t).contains(f) by {
            let i = choose|i: int| 0 <= i < es.len() && es[i] == f;
            assert((ns + gs)[ns.len() + i] == f);
        }
    }
}

/// A set of living entities closed under connections can be despawned
/// leaving a well formed world.
#[verifier::spinoff_prover]
pub proof fn lemma_pruned_world_wf(w0: Seq<EntityState>, k: Set<u64>)
    requires
        wf(w0),
        w0.len() <= u64::MAX,
        closed_under_connections(w0, k),
        forall|y: u64| #[trigger] k.contains(y) ==> alive(w0, y),
    ensures
        wf(pruned_world(w0, k)),
{
    let ww = pruned_world(w0, k);
    assert forall|y: u64| #[trigger] edge_of(ww, y) == if k.contains(y) {
        None
    } else {
        edge_of(w0, y)
    } by {}
    assert forall|y: u64| #[trigger] node_of(ww, y) == if k.contains(y) {
        None
    } else {
        pruned_node(node_of(w0, y), k)
    } by {}
    assert forall|y: u64| #[trigger] graph_of(ww, y) == if k.contains(y) {
        None
    } else {
        pruned_graph(graph_of(w0, y), k)
    } by {}
    assert forall|y: u64|
        #![trigger ww[y as int]]
        y < ww.len() && !ww[y as int].alive implies {
        &&& ww[y as int].node is None
        &&& ww[y as int].edge is None
        &&& ww[y as int].graph is None
    } by {
        if !k.contains(y) {
            assert(ww[y as int] == pruned_entity(w0[y as int], k));
        }
    }
    assert forall|f: u64| (#[trigger] edge_of(ww, f)) is Some implies edge_listed(
        ww,
        f,
        edge_of(ww, f)->0,
    ) by {
        assert(!k.contains(f));
        let d = edge_of(w0, f)->0;
        assert(edge_listed(w0, f, d));
        lemma_connections_hold(w0, d.input);
        lemma_connections_hold(w0, d.output);
        lemma_connections_hold(w0, d.graph);
        assert(!k.contains(d.input)) by {
            if k.contains(d.input) {
                assert(connections(w0, d.input).contains(f));
            }
        }
        assert(!k.contains(d.output)) by {
            if k.contains(d.output) {
                assert(connections(w0, d.output).contains(f));
            }
        }
        assert(!k.contains(d.graph)) by {
            if k.contains(d.graph) {
                assert(connections(w0, d.graph).contains(f));
            }
        }
        let ni = node_of(w0, d.input)->0;
        let no = node_of(w0, d.output)->0;
        let gg = graph_of(w0, d.graph)->0;
        lemma_pruned(ni.outputs, k);
        lemma_pruned(ni.inputs, k);
        lemma_pruned(no.inputs, k);
        lemma_pruned(no.outputs, k);
        lemma_pruned(gg, k);
        assert(pruned(ni.outputs, k).contains(f));
        assert(pruned(no.inputs, k).contains(f));
        assert(pruned(gg, k).contains(f));
        let i1 = choose|i: int| 0 <= i < pruned(ni.outputs, k).len() && pruned(ni.outputs, k)[i] == f;
        let i2 = choose|i: int| 0 <= i < pruned(no.inputs, k).len() && pruned(no.inputs, k)[i] == f;
        let i3 = choose|i: int| 0 <= i < pruned(gg, k).len() && pruned(gg, k)[i] == f;
    }
    assert forall|x: u64| (#[trigger] node_of(ww, x)) is Some implies node_listed(
        ww,
        x,
        node_of(ww, x)->0,
    ) by {
        assert(!k.contains(x));
        let n0 = node_of(w0, x)->0;
        assert(node_listed(w0, x, n0));
        lemma_pruned(n0.inputs, k);
        lemma_pruned(n0.outputs, k);
        let n = node_of(ww, x)->0;
        assert(n.inputs == pruned(n0.inputs, k) && n.outputs == pruned(n0.outputs, k));
        assert forall|i: int| 0 <= i < n.inputs.len() implies #[trigger] ends_at(ww, n.inputs[i], x) by {
            let c = n.inputs[i];
            assert(n.inputs.contains(c));
            let j = choose|j: int| 0 <= j < n0.inputs.len() && n0.inputs[j] == c;
            assert(ends_at(w0, n0.inputs[j], x));
            assert(edge_of(ww, c) == edge_of(w0, c));
        }
        assert forall|i: int| 0 <= i < n.outputs.len() implies #[trigger] starts_at(ww, n.outputs[i], x) by {
            let c = n.outputs[i];
            assert(n.outputs.contains(c));
            let j = choose|j: int| 0 <= j < n0.outputs.len() && n0.outputs[j] == c;
            assert(starts_at(w0, n0.outputs[j], x));
            assert(edge_of(ww, c) == edge_of(w0, c));
        }
    }
    assert forall|g: u64| (#[trigger] graph_of(ww, g)) is Some implies graph_listed(
        ww,
        g,
        graph_of(ww, g)->0,
    ) by {
        assert(!k.contains(g));
        let es0 = graph_of(w0, g)->0;
        assert(graph_listed(w0, g, es0));
        lemma_pruned(es0, k);
        let es = graph_of(ww, g)->0;
        assert(es == pruned(es0, k));
        assert forall|i: int| 0 <= i < es.len() implies #[trigger] belongs_to(ww, es[i], g) by {
            let c = es[i];
            assert(es.contains(c));
            let j = choose|j: int| 0 <= j < es0.len() && es0[j] == c;
            assert(belongs_to(w0, es0[j], g));
            assert(edge_of(ww, c) == edge_of(w0, c));
        }
    }
}

/// A finished despawn of `x` is exactly the despawn the model describes.
pub proof fn lemma_cascade_done(w0: Seq<EntityState>, x: u64, k: Set<u64>)
    requires
        wf(w0),
        alive(w0, x),
        w0.len() <= u64::MAX,
        k.contains(x),
        closed_under_connections(w0, k),
        forall|y: u64| #[trigger] k.contains(y) ==> alive(w0, y) && despawned_with(w0, x, y),
    ensures
        pruned_world(w0, k) == despawning(w0, x),
        wf(despawning(w0, x)),
{
    assert(k =~= despawn_set(w0, x)) by {
        assert forall|y: u64| despawn_set(w0, x).contains(y) implies k.contains(y) by {
            assert(despawned_with(w0, x, y));
            assert(closed_under_connections(w0, k) && k.contains(x) ==> k.contains(y));
        }
    }
    assert(pruned_world(w0, k) =~= despawning(w0, x));
    lemma_pruned_world_wf(w0, k);
}

/// The number of living entities.
pub open spec fn alive_count(w: Seq<EntityState>) -> nat
    decreases w.len(),
{
    if w.len() == 0 {
        0
    } else {
        alive_count(w.drop_last()) + if w.last().alive {
            1nat
        } else {
            0nat
        }
    }
}

/// Despawning a living entity lowers the number of living entities.
pub proof fn lemma_alive_count_kill(w: Seq<EntityState>, z: u64)
    requires
        alive(w, z),
    ensures
        alive_count(killing(w, z)) < alive_count(w),
    decreases w.len(),
{
    let w2 = killing(w, z);
    if z == w.len() - 1 {
        assert(w2.drop_last() =~= w.drop_last());
    } else {
        assert(w2.drop_last() =~= killing(w.drop_last(), z));
        lemma_alive_count_kill(w.drop_last(), z);
    }
}

/// Worlds with the same living entities count the same.
pub proof fn lemma_alive_count_same(w: Seq<EntityState>, w2: Seq<EntityState>)
    requires
        w2.len() == w.len(),
        forall|i: int| 0 <= i < w.len() ==> (#[trigger] w2[i]).alive == w[i].alive,
    ensures
        alive_count(w2) == alive_count(w),
    decreases w.len(),
{
    if w.len() > 0 {
        lemma_alive_count_same(w.drop_last(), w2.drop_last());
        assert(w2[w.len() - 1].alive == w[w.len() - 1].alive);
    }
}

/// Despawning nothing changes nothing.
pub proof fn lemma_pruned_world_empty(w: Seq<EntityState>)
    requires
        wf(w),
    ensures
        pruned_world(w, Set::empty()) == w,
{
    let k = Set::<u64>::empty();
    assert forall|i: int| 0 <= i < w.len() implies #[trigger] pruned_world(w, k)[i] == w[i] by {
        match w[i].node {
            Some(n) => {
                lemma_pruned(n.inputs, k);
                lemma_pruned(n.outputs, k);
            },
            None => {},
        }
        match w[i].graph {
            Some(es) => {
                lemma_pruned(es, k);
            },
            None => {},
        }
    }
    assert(pruned_world(w, k) =~= w);
}

/// The edges an entity lists are alive.
pub proof fn lemma_connection_alive(w: Seq<EntityState>, y: u64, c: u64)
    requires
        wf(w),
        connections(w, y).contains(c),
    ensures
        alive(w, c),
        edge_of(w, c) is Some,
{
    let ns = match node_of(w, y) {
        Some(n) => n.inputs + n.outputs,
        None => Seq::<u64>::empty(),
    };
    let gs = match graph_of(w, y) {
        Some(es) => es,
        None => Seq::<u64>::empty(),
    };
    assert(connections(w, y) == ns + gs);
    let j = choose|j: int| 0 <= j < (ns + gs).len() && (ns + gs)[j] == c;
    if j < ns.len() {
        let n = node_of(w, y)->0;
        assert(node_listed(w, y, n));
        if j < n.inputs.len() {
            assert(ends_at(w, n.inputs[j], y));
        } else {
            assert(starts_at(w, n.outputs[j - n.inputs.len()], y));
        }
    } else {
        let es = graph_of(w, y)->0;
        assert(graph_listed(w, y, es));
        assert(belongs_to(w, es[j - ns.len()], y));
    }
    assert(w[c as int].alive);
}

/// Whatever a despawned living entity lists is despawned with it.
pub proof fn lemma_despawned_step(w: Seq<EntityState>, x: u64, y: u64, c: u64)
    requires
        despawned_with(w, x, y),
        alive(w, y),
        connections(w, y).contains(c),
    ensures
        despawned_with(w, x, c),
{
    assert forall|s: Set<u64>| #[trigger] closed_under_connections(w, s) && s.contains(x) implies s.contains(c) by {
        assert(s.contains(y));
    }
}


/// Where a despawn started at `x` stands: the entities of `k` are despawned,
/// those of `pending` wait, all of them go with `x`, and every edge that a
/// despawned entity listed is despawned or waits.
pub open spec fn despawn_progress(
    w0: Seq<EntityState>,
    x: u64,
    w: Seq<EntityState>,
    k: Set<u64>,
    pending: Seq<u64>,
) -> bool {
    &&& wf(w0)
    &&& alive(w0, x)
    &&& cascade_inv(w0, w, k)
    &&& k.contains(x) || pending.contains(x)
    &&& forall|y: u64| #[trigger] k.contains(y) ==> despawned_with(w0, x, y)
    &&& forall|i: int| 0 <= i < pending.len() ==> despawned_with(w0, x, #[trigger] pending[i])
    &&& forall|y: u64, c: u64|
        #![trigger k.contains(y), connections(w0, y).contains(c)]
        k.contains(y) && connections(w0, y).contains(c) ==> k.contains(c) || pending.contains(c)
}

/// Despawning the living entity taken from the end of the pending list, and
/// queueing the edges it lists, keeps the progress and lowers the number of
/// living entities.
#[verifier::spinoff_prover]
pub proof fn lemma_despawn_kill(
    w0: Seq<EntityState>,
    x: u64,
    w: Seq<EntityState>,
    k: Set<u64>,
    rest: Seq<u64>,
    y: u64,
)
    requires
        despawn_progress(w0, x, w, k, rest.push(y)),
        alive(w, y),
    ensures
        despawn_progress(
            w0,
            x,
            killing(removing_edge(w, y), y),
            k.insert(y),
            rest + connections(w, y),
        ),
        alive_count(killing(removing_edge(w, y), y)) < alive_count(w),
{
    let p0 = rest.push(y);
    let cs = connections(w, y);
    let pending = rest + cs;
    let k2 = k.insert(y);
    assert(p0[p0.len() - 1] == y);
    assert(despawned_with(w0, x, y));
    lemma_cascade_connections(w0, w, k, y);
    lemma_cascade_step(w0, w, k, y);
    let w1 = removing_edge(w, y);
    crate::graph::lemmas::lemma_removing_edge_alive(w, y);
    lemma_alive_count_same(w, w1);
    lemma_alive_count_kill(w1, y);
    assert(alive(w0, y)) by {
        assert(!k.contains(y)) by {
            if k.contains(y) {
                assert(w[y as int] == dead_entity());
            }
        }
        assert(w[y as int] == pruned_entity(w0[y as int], k));
    }
    assert forall|c: u64| p0.contains(c) implies rest.contains(c) || c == y by {
        let j = choose|j: int| 0 <= j < p0.len() && p0[j] == c;
        if j < rest.len() {
            assert(rest[j] == c);
        }
    }
    assert forall|i: int| 0 <= i < pending.len() implies despawned_with(
        w0,
        x,
        #[trigger] pending[i],
    ) by {
        if i < rest.len() {
            assert(pending[i] == p0[i]);
        } else {
            let c = cs[i - rest.len()];
            assert(pending[i] == c);
            assert(connections(w, y).contains(c));
            lemma_despawned_step(w0, x, y, c);
        }
    }
    assert forall|z: u64, c: u64|
        #![trigger k2.contains(z), connections(w0, z).contains(c)]
        k2.contains(z) && connections(w0, z).contains(c) implies k2.contains(c)
        || pending.contains(c) by {
        if z == y {
            if !k.contains(c) {
                assert(connections(w, y).contains(c));
                let j = choose|j: int| 0 <= j < cs.len() && cs[j] == c;
                assert(pending[rest.len() + j] == c);
            }
        } else {
            assert(k.contains(z));
            if !k.contains(c) && c != y {
                assert(p0.contains(c));
                assert(rest.contains(c));
                let j = choose|j: int| 0 <= j < rest.len() && rest[j] == c;
                assert(pending[j] == c);
            }
        }
    }
    assert(k2.contains(x) || pending.contains(x)) by {
        if !k.contains(x) && x != y {
            assert(p0.contains(x));
            assert(rest.contains(x));
            let j = choose|j: int| 0 <= j < rest.len() && rest[j] == x;
            assert(pending[j] == x);
        }
    }
}

/// Dropping an entity from the end of the pending list that is no longer
/// alive keeps the progress.
pub proof fn lemma_despawn_skip(
    w0: Seq<EntityState>,
    x: u64,
    w: Seq<EntityState>,
    k: Set<u64>,
    rest: Seq<u64>,
    y: u64,
)
    requires
        despawn_progress(w0, x, w, k, rest.push(y)),
        !alive(w, y),
    ensures
        despawn_progress(w0, x, w, k, rest),
{
    let p0 = rest.push(y);
    assert forall|c: u64| p0.contains(c) implies rest.contains(c) || c == y by {
        let j = choose|j: int| 0 <= j < p0.len() && p0[j] == c;
        if j < rest.len() {
            assert(rest[j] == c);
        }
    }
    assert(k.contains(y) || !alive(w0, y)) by {
        if !k.contains(y) && y < w0.len() {
            assert(w[y as int] == pruned_entity(w0[y as int], k));
        }
    }
    assert forall|z: u64, c: u64|
        #![trigger k.contains(z), connections(w0, z).contains(c)]
        k.contains(z) && connections(w0, z).contains(c) implies k.contains(c)
        || rest.contains(c) by {
        if !k.contains(c) && c == y {
            lemma_connection_alive(w0, z, c);
        }
    }
    assert forall|i: int| 0 <= i < rest.len() implies despawned_with(
        w0,
        x,
        #[trigger] rest[i],
    ) by {
        assert(rest[i] == p0[i]);
    }
}

/// A despawn whose pending list has run out has despawned exactly what goes
/// with `x`.
pub proof fn lemma_despawn_finish(w0: Seq<EntityState>, x: u64, w: Seq<EntityState>, k: Set<u64>)
    requires
        despawn_progress(w0, x, w, k, Seq::empty()),
    ensures
        w == despawning(w0, x),
        wf(w),
{
    assert(closed_under_connections(w0, k)) by {
        assert forall|y: u64, c: u64|
            #![trigger k.contains(y), connections(w0, y).contains(c)]
            k.contains(y) && alive(w0, y) && connections(w0, y).contains(c) implies k.contains(
            c,
        ) by {
            assert(!Seq::<u64>::empty().contains(c));
        }
    }
    assert(k.contains(x));
    lemma_cascade_done(w0, x, k);
}

/// Despawning `x` spares every other living entity that carries no edge
/// component, and leaves it without one.
pub proof fn lemma_despawn_spares(w: Seq<EntityState>, x: u64, y: u64)
    requires
        wf(w),
        y != x,
        alive(w, y),
        edge_of(w, y) is None,
    ensures
        alive(despawning(w, x), y),
        edge_of(despawning(w, x), y) is None,
{
    if alive(w, x) {
        let s = Set::new(|z: u64| z == x || edge_of(w, z) is Some);
        assert(closed_under_connections(w, s)) by {
            assert forall|z: u64, c: u64|
                #![trigger s.contains(z), connections(w, z).contains(c)]
                s.contains(z) && alive(w, z) && connections(w, z).contains(c) implies s.contains(
                c,
            ) by {
                lemma_connection_alive(w, z, c);
            }
        }
        assert(s.contains(x));
        assert(!s.contains(y));
        assert(!despawn_set(w, x).contains(y));
    }
}

/// An entity that no edge component lists in `w`.
#[verifier::spinoff_prover]
proof fn lemma_unlisted_entity(w: Seq<EntityState>, x: u64, i: int)
    requires
        wf(w),
        edge_of(w, x) is None,
        0 <= i < w.len(),
        w.len() <= u64::MAX,
    ensures
        pruned_entity(w[i], Set::empty().insert(x)) == w[i],
{
    let k = Set::<u64>::empty().insert(x);
    let y = i as u64;
    assert(y as int == i);
    match w[i].node {
        Some(n) => {
            assert(node_of(w, y) == Some(n));
            assert(node_listed(w, y, n));
            assert(!touches(n.inputs, k)) by {
                if touches(n.inputs, k) {
                    let j = choose|j: int| 0 <= j < n.inputs.len() && k.contains(n.inputs[j]);
                    assert(ends_at(w, n.inputs[j], y));
                }
            }
            assert(!touches(n.outputs, k)) by {
                if touches(n.outputs, k) {
                    let j = choose|j: int| 0 <= j < n.outputs.len() && k.contains(n.outputs[j]);
                    assert(starts_at(w, n.outputs[j], y));
                }
            }
            lemma_pruned(n.inputs, k);
            lemma_pruned(n.outputs, k);
        },
        None => {},
    }
    match w[i].graph {
        Some(es) => {
            assert(graph_of(w, y) == Some(es));
            assert(graph_listed(w, y, es));
            assert(!touches(es, k)) by {
                if touches(es, k) {
                    let j = choose|j: int| 0 <= j < es.len() && k.contains(es[j]);
                    assert(belongs_to(w, es[j], y));
                }
            }
            lemma_pruned(es, k);
        },
        None => {},
    }
}

/// Despawning a living entity that carries no graph component kills it
/// alone and leaves every other entity as it was.
pub proof fn lemma_despawn_bare(w: Seq<EntityState>, x: u64)
    requires
        wf(w),
        w.len() <= u64::MAX,
        alive(w, x),
        w[x as int].node is None,
        w[x as int].edge is None,
        w[x as int].graph is None,
    ensures
        despawning(w, x) == w.update(x as int, dead_entity()),
{
    let k = Set::<u64>::empty().insert(x);
    assert(connections(w, x) =~= Seq::<u64>::empty());
    assert(closed_under_connections(w, k)) by {
        assert forall|y: u64, c: u64|
            #![trigger k.contains(y), connections(w, y).contains(c)]
            k.contains(y) && alive(w, y) && connections(w, y).contains(c) implies k.contains(c) by {
            assert(y == x);
        }
    }
    assert forall|y: u64| despawned_with(w, x, y) implies y == x by {
        assert(k.contains(x));
    }
    assert(despawn_set(w, x) =~= k);
    assert forall|i: int| 0 <= i < w.len() implies #[trigger] despawning(w, x)[i] == w.update(
        x as int,
        dead_entity(),
    )[i] by {
        if i != x as int {
            assert(!k.contains(i as u64));
            lemma_unlisted_entity(w, x, i);
        }
    }
    assert(despawning(w, x) =~= w.update(x as int, dead_entity()));
}

} // verus!
