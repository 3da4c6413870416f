//! Commands that reshape a graph: promoting an edge to a node, and twisting
//! a cycle of two edges around a new node.
use vstd::prelude::*;

use crate::graph::cascade::{lemma_cascade_done, lemma_despawn_bare, lemma_despawn_spares};
use crate::graph::components::{forms_cycle, Edge, GraphWorld};
use crate::graph::lemmas::{
    lemma_detach, lemma_inserting_edge_alive, lemma_labels_alive, lemma_labels_wf,
    lemma_removing_edge_alive, lemma_spawn,
};
use crate::graph::model::{
    closed_under_connections, connections, despawned_with,
    alive, cloning_labels, dead_entity, despawning, edge_of, fresh_entity, inserting_edge,
    moving_labels, removing_edge, wf, EntityState,
};

verus! {

/// The world after [`promote_edge`] on `edge`: two entities are spawned; if
/// `edge` carries an edge component, the component is taken off, the names
/// and markers of `edge` are cloned onto both new entities, and they become
/// the edges into and out of `edge`, within the graph of the old edge.
pub open spec fn promoting(w: Seq<EntityState>, edge: u64) -> Seq<EntityState> {
    let input = w.len() as u64;
    let output = (w.len() + 1) as u64;
    let w1 = w.push(fresh_entity()).push(fresh_entity());
    match edge_of(w1, edge) {
        None => w1,
        Some(d) => {
            let w2 = removing_edge(w1, edge);
            let w3 = cloning_labels(cloning_labels(w2, edge, input), edge, output);
            let w4 = inserting_edge(w3, input, Edge { input: d.input, output: edge, graph: d.graph });
            inserting_edge(w4, output, Edge { input: edge, output: d.output, graph: d.graph })
        },
    }
}

/// Transforms an edge into a node with two new edges in its place.
///
/// The names and markers of the edge are cloned to the two new edges that
/// replace it. Returns the new edges into and out of the node; if `edge` is
/// not an edge, the two entities are spawned and nothing else changes.
pub fn promote_edge(world: &mut GraphWorld, edge: u64) -> (r: (u64, u64))
    requires
        old(world).wf(),
        old(world)@.len() + 2 <= u64::MAX,
    ensures
        r == (old(world)@.len() as u64, (old(world)@.len() + 1) as u64),
        final(world)@ == promoting(old(world)@, edge),
        final(world).wf(),
{
    let input = world.spawn();
    let output = world.spawn();
    let ghost w1 = world@;
    match world.edge(edge) {
        None => {},
        Some(d) => {
            assert(alive(w1, edge)) by {
                assert(w1[edge as int].edge is Some);
            }
            world.remove_edge(edge);
            proof {
                lemma_removing_edge_alive(w1, edge);
            }
            let ghost w2 = world@;
            world.clone_labels(edge, input);
            proof {
                lemma_labels_alive(w2, edge, input);
            }
            world.clone_labels(edge, output);
            let _ = world.insert_edge(input, Edge::new(d.input, edge, d.graph));
            proof {
                let w3 = cloning_labels(cloning_labels(w2, edge, input), edge, output);
                lemma_labels_alive(cloning_labels(w2, edge, input), edge, output);
                lemma_inserting_edge_alive(
                    w3,
                    input,
                    Edge { input: d.input, output: edge, graph: d.graph },
                );
            }
            let _ = world.insert_edge(output, Edge::new(edge, d.output, d.graph));
        },
    }
    (input, output)
}

/// `c0` and `c1` carry edge components that form a cycle of two.
pub open spec fn twistable(w: Seq<EntityState>, c0: u64, c1: u64) -> bool {
    &&& edge_of(w, c0) is Some
    &&& edge_of(w, c1) is Some
    &&& forms_cycle(edge_of(w, c0)->0, edge_of(w, c1)->0)
}

/// `w` with `n` fresh entities spawned.
pub open spec fn spawning(w: Seq<EntityState>, n: nat) -> Seq<EntityState>
    decreases n,
{
    if n == 0 {
        w
    } else {
        spawning(w, (n - 1) as nat).push(fresh_entity())
    }
}

/// The world after [`twist_cycle`] on `(c0, c1)`.
///
/// Four entities are spawned. If `c0` and `c1` are edges that form a cycle,
/// both edge components are taken off; the names and markers of `c0` are
/// cloned onto the first two new entities and those of `c1` onto the last
/// two; those of `c0` are then moved onto `c1`, and `c0` is despawned.
/// Finally the new entities become edges that run through `c1` in place of
/// the old ones. Otherwise the four entities are despawned again.
pub open spec fn twisting(w: Seq<EntityState>, c0: u64, c1: u64) -> Seq<EntityState> {
    let zi = w.len() as u64;
    let zo = (w.len() + 1) as u64;
    let oi = (w.len() + 2) as u64;
    let oo = (w.len() + 3) as u64;
    let w1 = spawning(w, 4);
    if twistable(w1, c0, c1) {
        let zd = edge_of(w1, c0)->0;
        let od = edge_of(w1, c1)->0;
        let w2 = removing_edge(removing_edge(w1, c0), c1);
        let w3 = cloning_labels(
            cloning_labels(cloning_labels(cloning_labels(w2, c0, zi), c0, zo), c1, oi),
            c1,
            oo,
        );
        let w4 = despawning(moving_labels(w3, c0, c1), c0);
        let w5 = inserting_edge(w4, zi, Edge { input: zd.input, output: c1, graph: zd.graph });
        let w6 = inserting_edge(w5, zo, Edge { input: c1, output: zd.output, graph: zd.graph });
        let w7 = inserting_edge(w6, oi, Edge { input: od.input, output: c1, graph: od.graph });
        inserting_edge(w7, oo, Edge { input: c1, output: od.output, graph: od.graph })
    } else {
        despawning(despawning(despawning(despawning(w1, zi), zo), oi), oo)
    }
}

/// Two edges form a cycle only when each ends where the other starts, in
/// one graph.
pub proof fn lemma_cycle_ends_meet(a: Edge, b: Edge)
    ensures
        forms_cycle(a, b) ==> a.output == b.input && b.output == a.input && a.graph == b.graph,
        a.output == b.input && b.output == a.input && a.graph == b.graph ==> forms_cycle(a, b),
{
}

/// Despawning a living entity that carries no component keeps the world
/// well formed.
proof fn lemma_despawn_bare_wf(w: Seq<EntityState>, x: u64)
    requires
        wf(w),
        w.len() <= u64::MAX,
        alive(w, x),
        w[x as int].node is None,
        w[x as int].edge is None,
        w[x as int].graph is None,
    ensures
        wf(w.update(x as int, dead_entity())),
{
    lemma_despawn_bare(w, x);
    let k = Set::<u64>::empty().insert(x);
    assert(connections(w, x) =~= Seq::<u64>::empty());
    assert(closed_under_connections(w, k)) by {
        assert forall|y: u64, c: u64|
            #![trigger k.contains(y), connections(w, y).contains(c)]
            k.contains(y) && alive(w, y) && connections(w, y).contains(c) implies k.contains(c) by {
            assert(y == x);
        }
    }
    assert forall|y: u64| #[trigger] k.contains(y) implies alive(w, y) && despawned_with(w, x, y) by {
        assert(y == x);
    }
    lemma_cascade_done(w, x, k);
}

/// Twisting two entities that are not a cycle of two edges (one is no
/// edge, or the first does not end where the second starts, or the second
/// does not end where the first starts, or they lie in different graphs)
/// leaves every existing entity as it was: the four entities it spawns are
/// despawned again.
pub proof fn lemma_twist_needs_a_cycle(w: Seq<EntityState>, c0: u64, c1: u64)
    requires
        wf(w),
        w.len() + 4 <= u64::MAX,
        edge_of(w, c0) is None || edge_of(w, c1) is None || edge_of(w, c0)->0.output != edge_of(
            w,
            c1,
        )->0.input || edge_of(w, c1)->0.output != edge_of(w, c0)->0.input || edge_of(w, c0)->0.graph
            != edge_of(w, c1)->0.graph,
    ensures
        twisting(w, c0, c1) == w + seq![dead_entity(), dead_entity(), dead_entity(), dead_entity()],
{
    reveal_with_fuel(spawning, 5);
    let w1 = spawning(w, 4);
    assert(w1 == w.push(fresh_entity()).push(fresh_entity()).push(fresh_entity()).push(
        fresh_entity(),
    ));
    assert(forall|y: u64| y < w.len() ==> #[trigger] edge_of(w1, y) == edge_of(w, y));
    assert(edge_of(w1, c0) == edge_of(w, c0));
    assert(edge_of(w1, c1) == edge_of(w, c1));
    assert(!twistable(w1, c0, c1));
    lemma_spawn(w);
    lemma_spawn(w.push(fresh_entity()));
    lemma_spawn(w.push(fresh_entity()).push(fresh_entity()));
    lemma_spawn(w.push(fresh_entity()).push(fresh_entity()).push(fresh_entity()));
    let zi = w.len() as u64;
    let zo = (w.len() + 1) as u64;
    let oi = (w.len() + 2) as u64;
    let oo = (w.len() + 3) as u64;
    let d = dead_entity();
    lemma_despawn_bare(w1, zi);
    lemma_despawn_bare_wf(w1, zi);
    let wa = w1.update(zi as int, d);
    lemma_despawn_bare(wa, zo);
    lemma_despawn_bare_wf(wa, zo);
    let wb = wa.update(zo as int, d);
    lemma_despawn_bare(wb, oi);
    lemma_despawn_bare_wf(wb, oi);
    let wc = wb.update(oi as int, d);
    lemma_despawn_bare(wc, oo);
    assert(wc.update(oo as int, d) =~= w + seq![d, d, d, d]);
}

/// Creates a node that splits both edges of a cycle.
///
/// If the entities are not edges, or the edges are not a valid cycle, the
/// existing entities are not modified and the four spawned entities are
/// despawned again.
///
/// The names and markers of each edge are cloned to the two new edges that
/// replace it. Then those of the first edge are moved onto the second edge
/// to combine them into a single node. Finally, the first edge is despawned.
pub fn twist_cycle(world: &mut GraphWorld, cycle: (u64, u64)) -> (r: ((u64, u64), (u64, u64)))
    requires
        old(world).wf(),
        old(world)@.len() + 4 <= u64::MAX,
    ensures
        r == (
            (old(world)@.len() as u64, (old(world)@.len() + 1) as u64),
            ((old(world)@.len() + 2) as u64, (old(world)@.len() + 3) as u64),
        ),
        final(world)@ == twisting(old(world)@, cycle.0, cycle.1),
        final(world).wf(),
        !twistable(old(world)@, cycle.0, cycle.1) ==> final(world)@ == old(world)@ + seq![
            dead_entity(),
            dead_entity(),
            dead_entity(),
            dead_entity(),
        ],
{
    let ghost w0 = world@;
    let (c0, c1) = cycle;
    let zero_inwards = world.spawn();
    let zero_outwards = world.spawn();
    let one_inwards = world.spawn();
    let one_outwards = world.spawn();
    let ghost w1 = world@;
    proof {
        reveal_with_fuel(spawning, 5);
        assert(w1 == spawning(w0, 4));
        assert(forall|y: u64| y < w0.len() ==> #[trigger] edge_of(w1, y) == edge_of(w0, y));
        assert(twistable(w1, c0, c1) == twistable(w0, c0, c1));
    }
    let zd = world.edge(c0);
    let od = world.edge(c1);
    let valid = match (zd, od) {
        (Some(a), Some(b)) => Edge::is_cycle((&a, &b)),
        _ => false,
    };
    if !valid {
        world.despawn(zero_inwards);
        world.despawn(zero_outwards);
        world.despawn(one_inwards);
        world.despawn(one_outwards);
        proof {
            let d = dead_entity();
            lemma_despawn_bare(w1, zero_inwards);
            let wa = w1.update(zero_inwards as int, d);
            lemma_despawn_bare(wa, zero_outwards);
            let wb = wa.update(zero_outwards as int, d);
            lemma_despawn_bare(wb, one_inwards);
            let wc = wb.update(one_inwards as int, d);
            lemma_despawn_bare(wc, one_outwards);
            assert(world@ =~= w0 + seq![d, d, d, d]);
        }
        return ((zero_inwards, zero_outwards), (one_inwards, one_outwards));
    }
    let zd = zd.unwrap();
    let od = od.unwrap();
    proof {
        assert(w1[c0 as int].edge is Some);
        assert(w1[c1 as int].edge is Some);
    }
    world.remove_edge(c0);
    proof {
        lemma_removing_edge_alive(w1, c0);
    }
    let ghost wa = world@;
    world.remove_edge(c1);
    proof {
        lemma_removing_edge_alive(wa, c1);
    }
    let ghost w2 = world@;
    world.clone_labels(c0, zero_inwards);
    proof {
        lemma_labels_alive(w2, c0, zero_inwards);
    }
    let ghost wb = world@;
    world.clone_labels(c0, zero_outwards);
    proof {
        lemma_labels_alive(wb, c0, zero_outwards);
    }
    let ghost wc = world@;
    world.clone_labels(c1, one_inwards);
    proof {
        lemma_labels_alive(wc, c1, one_inwards);
    }
    let ghost wd = world@;
    world.clone_labels(c1, one_outwards);
    proof {
        lemma_labels_alive(wd, c1, one_outwards);
    }
    let ghost w3 = world@;
    world.move_labels(c0, c1);
    proof {
        lemma_labels_alive(w3, c0, c1);
    }
    let ghost we = world@;
    world.despawn(c0);
    proof {
        lemma_despawn_spares(we, c0, zero_inwards);
        lemma_despawn_spares(we, c0, zero_outwards);
        lemma_despawn_spares(we, c0, one_inwards);
        lemma_despawn_spares(we, c0, one_outwards);
    }
    let ghost w4 = world@;
    let _ = world.insert_edge(zero_inwards, Edge::new(zd.input, c1, zd.graph));
    proof {
        lemma_inserting_edge_alive(w4, zero_inwards, Edge { input: zd.input, output: c1, graph: zd.graph });
    }
    let ghost w5 = world@;
    let _ = world.insert_edge(zero_outwards, Edge::new(c1, zd.output, zd.graph));
    proof {
        lemma_inserting_edge_alive(w5, zero_outwards, Edge { input: c1, output: zd.output, graph: zd.graph });
    }
    let ghost w6 = world@;
    let _ = world.insert_edge(one_inwards, Edge::new(od.input, c1, od.graph));
    proof {
        lemma_inserting_edge_alive(w6, one_inwards, Edge { input: od.input, output: c1, graph: od.graph });
    }
    let _ = world.insert_edge(one_outwards, Edge::new(c1, od.output, od.graph));
    ((zero_inwards, zero_outwards), (one_inwards, one_outwards))
}

/// The world of [`twisting`] once the new entities are spawned and both
/// edge components taken off.
pub open spec fn twist_detached(w: Seq<EntityState>, c0: u64, c1: u64) -> Seq<EntityState> {
    removing_edge(removing_edge(spawning(w, 4), c0), c1)
}

/// The world of [`twisting`] just before the first edge is despawned: the
/// labels of both edges cloned onto the new entities, and those of the
/// first edge moved onto the second.
pub open spec fn twist_relabelled(w: Seq<EntityState>, c0: u64, c1: u64) -> Seq<EntityState> {
    let zi = w.len() as u64;
    let zo = (w.len() + 1) as u64;
    let oi = (w.len() + 2) as u64;
    let oo = (w.len() + 3) as u64;
    let w3 = cloning_labels(
        cloning_labels(
            cloning_labels(cloning_labels(twist_detached(w, c0, c1), c0, zi), c0, zo),
            c1,
            oi,
        ),
        c1,
        oo,
    );
    moving_labels(w3, c0, c1)
}

/// Taking off both edge components keeps the world well formed and both
/// edges alive, with their labels, and without edge components.
#[verifier::spinoff_prover]
proof fn lemma_twist_detached(w: Seq<EntityState>, c0: u64, c1: u64)
    requires
        wf(w),
        w.len() + 4 <= u64::MAX,
        twistable(w, c0, c1),
        c0 != c1,
    ensures
        ({
            let w2 = twist_detached(w, c0, c1);
            &&& wf(w2)
            &&& w2.len() == w.len() + 4
            &&& alive(w2, c0)
            &&& alive(w2, c1)
            &&& edge_of(w2, c1) is None
            &&& w2[c0 as int].name == w[c0 as int].name
            &&& w2[c1 as int].name == w[c1 as int].name
            &&& w2[c0 as int].markers == w[c0 as int].markers
            &&& w2[c1 as int].markers == w[c1 as int].markers
        }),
        twistable(spawning(w, 4), c0, c1),
        c0 < w.len(),
        c1 < w.len(),
{
    let n = w.len();
    let f = fresh_entity();
    reveal_with_fuel(spawning, 5);
    let w1 = spawning(w, 4);
    assert(w1 == w.push(f).push(f).push(f).push(f));
    lemma_spawn(w);
    lemma_spawn(w.push(f));
    lemma_spawn(w.push(f).push(f));
    lemma_spawn(w.push(f).push(f).push(f));
    assert(c0 < n && c1 < n);
    assert(w1[c0 as int] == w[c0 as int] && w1[c1 as int] == w[c1 as int]);
    assert(twistable(w1, c0, c1));
    assert(alive(w1, c0) && alive(w1, c1)) by {
        assert(w1[c0 as int].edge is Some);
        assert(w1[c1 as int].edge is Some);
    }
    let wa = removing_edge(w1, c0);
    lemma_detach(w1, c0);
    lemma_removing_edge_alive(w1, c0);
    lemma_detach(wa, c1);
    lemma_removing_edge_alive(wa, c1);
}

/// Up to the despawn, twisting keeps the world well formed, both edges
/// alive, and moves the labels of the first edge onto the second, which no
/// longer carries an edge component.
#[verifier::spinoff_prover]
proof fn lemma_twist_relabelled(w: Seq<EntityState>, c0: u64, c1: u64)
    requires
        wf(w),
        w.len() + 4 <= u64::MAX,
        twistable(w, c0, c1),
        c0 != c1,
    ensures
        ({
            let wm = twist_relabelled(w, c0, c1);
            &&& wf(wm)
            &&& alive(wm, c0)
            &&& alive(wm, c1)
            &&& edge_of(wm, c1) is None
            &&& wm[c1 as int].name == (if w[c0 as int].name is Some {
                w[c0 as int].name
            } else {
                w[c1 as int].name
            })
            &&& wm[c1 as int].markers.progress_edge == (w[c0 as int].markers.progress_edge
                || w[c1 as int].markers.progress_edge)
        }),
        twistable(spawning(w, 4), c0, c1),
{
    let n = w.len();
    let zi = n as u64;
    let zo = (n + 1) as u64;
    let oi = (n + 2) as u64;
    let oo = (n + 3) as u64;
    lemma_twist_detached(w, c0, c1);
    let w2 = twist_detached(w, c0, c1);
    let wb = cloning_labels(w2, c0, zi);
    lemma_labels_alive(w2, c0, zi);
    lemma_labels_wf(w2, c0, zi);
    let wc = cloning_labels(wb, c0, zo);
    lemma_labels_alive(wb, c0, zo);
    lemma_labels_wf(wb, c0, zo);
    let wd = cloning_labels(wc, c1, oi);
    lemma_labels_alive(wc, c1, oi);
    lemma_labels_wf(wc, c1, oi);
    let w3 = cloning_labels(wd, c1, oo);
    lemma_labels_alive(wd, c1, oo);
    lemma_labels_wf(wd, c1, oo);
    assert(w3[c0 as int].name == w[c0 as int].name && w3[c1 as int].name == w[c1 as int].name);
    assert(w3[c0 as int].markers == w[c0 as int].markers && w3[c1 as int].markers
        == w[c1 as int].markers);
    let wm = moving_labels(w3, c0, c1);
    lemma_labels_alive(w3, c0, c1);
    lemma_labels_wf(w3, c0, c1);
    assert(wm == twist_relabelled(w, c0, c1));
    assert(edge_of(wm, c1) is None);
}

/// Twisting a cycle of two distinct edges despawns the first edge and makes
/// the second a living entity without an edge component, which carries the
/// name of the first (its own, where the first had none) and is marked as
/// progress if either was.
#[verifier::spinoff_prover]
pub proof fn lemma_twist_merges(w: Seq<EntityState>, c0: u64, c1: u64)
    requires
        wf(w),
        w.len() + 4 <= u64::MAX,
        twistable(w, c0, c1),
        c0 != c1,
    ensures
        !alive(twisting(w, c0, c1), c0),
        alive(twisting(w, c0, c1), c1),
        edge_of(twisting(w, c0, c1), c1) is None,
        twisting(w, c0, c1)[c1 as int].name == (if w[c0 as int].name is Some {
            w[c0 as int].name
        } else {
            w[c1 as int].name
        }),
        twisting(w, c0, c1)[c1 as int].markers.progress_edge == (w[c0 as int].markers.progress_edge
            || w[c1 as int].markers.progress_edge),
{
    let n = w.len();
    let zi = n as u64;
    let zo = (n + 1) as u64;
    let oi = (n + 2) as u64;
    let oo = (n + 3) as u64;
    lemma_twist_relabelled(w, c0, c1);
    let w1 = spawning(w, 4);
    let zd = edge_of(w1, c0)->0;
    let od = edge_of(w1, c1)->0;
    let wm = twist_relabelled(w, c0, c1);
    let w4 = despawning(wm, c0);
    lemma_despawn_spares(wm, c0, c1);
    assert(crate::graph::model::despawned_with(wm, c0, c0));
    assert(!alive(w4, c0));
    assert(!crate::graph::model::despawn_set(wm, c0).contains(c1));
    assert(w4[c1 as int].name == wm[c1 as int].name && w4[c1 as int].markers
        == wm[c1 as int].markers);
    let w5 = inserting_edge(w4, zi, Edge { input: zd.input, output: c1, graph: zd.graph });
    lemma_inserting_edge_alive(w4, zi, Edge { input: zd.input, output: c1, graph: zd.graph });
    let w6 = inserting_edge(w5, zo, Edge { input: c1, output: zd.output, graph: zd.graph });
    lemma_inserting_edge_alive(w5, zo, Edge { input: c1, output: zd.output, graph: zd.graph });
    let w7 = inserting_edge(w6, oi, Edge { input: od.input, output: c1, graph: od.graph });
    lemma_inserting_edge_alive(w6, oi, Edge { input: od.input, output: c1, graph: od.graph });
    let w8 = inserting_edge(w7, oo, Edge { input: c1, output: od.output, graph: od.graph });
    lemma_inserting_edge_alive(w7, oo, Edge { input: c1, output: od.output, graph: od.graph });
    assert(twisting(w, c0, c1) == w8);
    assert(w8[c1 as int] == w8[c1 as int]);
    assert(w8[c0 as int] == w8[c0 as int]);
}

} // verus!
