//! A printable picture of a node: its graph, the nodes before it and the
//! nodes after it.
use vstd::prelude::*;
use vstd::string::StringExecFns;

use crate::graph::components::{GraphWorld, Node};
use crate::graph::model::{edge_of, EntityState};
use crate::graph::ops::{node_input_edges, node_output_edges};
use crate::graph::util::{edge_input, edge_output, parent_graph, parent_graph_of};
use crate::text::{decimal, decimal_string};

verus! {

/// The input nodes of those edges of `es` that carry an edge component.
pub open spec fn edge_sources(w: Seq<EntityState>, es: Seq<u64>) -> Seq<u64>
    decreases es.len(),
{
    if es.len() == 0 {
        Seq::empty()
    } else {
        let rest = edge_sources(w, es.drop_last());
        match edge_of(w, es.last()) {
            Some(d) => rest.push(d.input),
            None => rest,
        }
    }
}

/// The output nodes of those edges of `es` that carry an edge component.
pub open spec fn edge_targets(w: Seq<EntityState>, es: Seq<u64>) -> Seq<u64>
    decreases es.len(),
{
    if es.len() == 0 {
        Seq::empty()
    } else {
        let rest = edge_targets(w, es.drop_last());
        match edge_of(w, es.last()) {
            Some(d) => rest.push(d.output),
            None => rest,
        }
    }
}

/// The nodes with an edge into `x`.
pub open spec fn nodes_before(w: Seq<EntityState>, x: u64) -> Seq<u64> {
    edge_sources(w, node_input_edges(w, x))
}

/// The nodes with an edge from `x`.
pub open spec fn nodes_after(w: Seq<EntityState>, x: u64) -> Seq<u64> {
    edge_targets(w, node_output_edges(w, x))
}

/// The line of an entity after the given prefix: the prefix, then the
/// entity's number in decimal.
pub open spec fn entity_line(prefix: Seq<char>, id: u64) -> Seq<char> {
    prefix + decimal(id as nat)
}

/// The line of the `i`th of `n` nodes after the node.
pub open spec fn after_line(i: int, n: int, id: u64) -> Seq<char> {
    if i != n - 1 {
        entity_line("  ├ Node "@, id)
    } else {
        entity_line("  └ Node "@, id)
    }
}

/// The picture of `x`: its graph, a bar, the nodes before it, `x` itself,
/// then the nodes after it, the last one closing the branch.
pub open spec fn debug_lines(w: Seq<EntityState>, x: u64) -> Seq<Seq<char>> {
    let before = nodes_before(w, x);
    let after = nodes_after(w, x);
    seq![entity_line("Graph "@, parent_graph_of(w, x)->0), "┬"@]
        + before.map(|i: int, id: u64| entity_line("├ Node "@, id))
        + seq![entity_line("└ Node "@, x)]
        + after.map(|i: int, id: u64| after_line(i, after.len() as int, id))
}

/// In the picture of a node, each node after it gets a line that opens a
/// branch (`  ├ Node `), except the last, whose line closes it
/// (`  └ Node `); each line then names its node.
pub proof fn lemma_debug_closes_only_the_last_branch(w: Seq<EntityState>, x: u64, i: int)
    requires
        0 <= i < nodes_after(w, x).len(),
    ensures
        debug_lines(w, x).len() == 3 + nodes_before(w, x).len() + nodes_after(w, x).len(),
        i == nodes_after(w, x).len() - 1 ==> debug_lines(w, x)[3 + nodes_before(w, x).len() + i]
            == "  └ Node "@ + decimal(nodes_after(w, x)[i] as nat),
        i < nodes_after(w, x).len() - 1 ==> debug_lines(w, x)[3 + nodes_before(w, x).len() + i]
            == "  ├ Node "@ + decimal(nodes_after(w, x)[i] as nat),
{
    let before = nodes_before(w, x);
    let after = nodes_after(w, x);
    let head = seq![entity_line("Graph "@, parent_graph_of(w, x)->0), "┬"@]
        + before.map(|j: int, id: u64| entity_line("├ Node "@, id))
        + seq![entity_line("└ Node "@, x)];
    let tail = after.map(|j: int, id: u64| after_line(j, after.len() as int, id));
    assert(debug_lines(w, x) == head + tail);
    assert(head.len() == 3 + before.len());
    assert((head + tail)[3 + before.len() + i] == tail[i]);
}

/// The input nodes of those edges of `es` that carry an edge component.
fn sources_of(world: &GraphWorld, es: &Vec<u64>) -> (r: Vec<u64>)
    ensures
        r@ == edge_sources(world@, es@),
{
    let mut r: Vec<u64> = Vec::new();
    for i in 0..es.len()
        invariant
            r@ == edge_sources(world@, es@.take(i as int)),
    {
        proof {
            assert(es@.take(i + 1).drop_last() =~= es@.take(i as int));
        }
        match edge_input(world, es[i]) {
            Some(u) => r.push(u),
            None => {},
        }
    }
    assert(es@.take(es.len() as int) =~= es@);
    r
}

/// The output nodes of those edges of `es` that carry an edge component.
fn targets_of(world: &GraphWorld, es: &Vec<u64>) -> (r: Vec<u64>)
    ensures
        r@ == edge_targets(world@, es@),
{
    let mut r: Vec<u64> = Vec::new();
    for i in 0..es.len()
        invariant
            r@ == edge_targets(world@, es@.take(i as int)),
    {
        proof {
            assert(es@.take(i + 1).drop_last() =~= es@.take(i as int));
        }
        match edge_output(world, es[i]) {
            Some(u) => r.push(u),
            None => {},
        }
    }
    assert(es@.take(es.len() as int) =~= es@);
    r
}

/// `prefix` followed by the text of entity `id`.
fn line_of(prefix: &str, id: u64) -> (r: String)
    ensures
        r@ == entity_line(prefix@, id),
{
    let mut r = String::from_str(prefix);
    let t = decimal_string(id);
    r.append(t.as_str());
    r
}

impl Node {
    /// The lines of a picture of node `x` for the log: its graph, the
    /// nodes before it, itself, and the nodes after it.
    pub fn debug(world: &GraphWorld, x: u64) -> (lines: Vec<String>)
        requires
            parent_graph_of(world@, x) is Some,
        ensures
            lines@.map_values(|s: String| s@) == debug_lines(world@, x),
    {
        let ghost w = world@;
        let graph = parent_graph(world, x).unwrap();
        let before = sources_of(world, &Node::entity_inputs(world, x));
        let after = targets_of(world, &Node::entity_outputs(world, x));
        let mut lines: Vec<String> = Vec::new();
        lines.push(line_of("Graph ", graph));
        lines.push(String::from_str("┬"));
        let ghost head = seq![entity_line("Graph "@, graph), "┬"@];
        assert(lines@.map_values(|s: String| s@) =~= head);
        for i in 0..before.len()
            invariant
                before@ == nodes_before(w, x),
                lines@.map_values(|s: String| s@) == head + before@.take(i as int).map(
                    |j: int, id: u64| entity_line("├ Node "@, id),
                ),
        {
            let l = line_of("├ Node ", before[i]);
            let ghost prev = lines@.map_values(|s: String| s@);
            lines.push(l);
            proof {
                let f = |j: int, id: u64| entity_line("├ Node "@, id);
                assert(lines@.map_values(|s: String| s@) =~= prev.push(l@));
                assert(before@.take(i + 1).map(f) =~= before@.take(i as int).map(f).push(
                    f(i as int, before@[i as int]),
                ));
                assert(lines@.map_values(|s: String| s@) =~= head + before@.take(i + 1).map(f));
            }
        }
        let ghost mid = head + before@.map(|j: int, id: u64| entity_line("├ Node "@, id))
            + seq![entity_line("└ Node "@, x)];
        assert(before@.take(before.len() as int) =~= before@);
        lines.push(line_of("└ Node ", x));
        assert(lines@.map_values(|s: String| s@) =~= mid);
        let n = after.len();
        for i in 0..n
            invariant
                n == after@.len(),
                after@ == nodes_after(w, x),
                lines@.map_values(|s: String| s@) == mid + after@.take(i as int).map(
                    |j: int, id: u64| after_line(j, n as int, id),
                ),
        {
            let l = if i != n - 1 {
                line_of("  ├ Node ", after[i])
            } else {
                line_of("  └ Node ", after[i])
            };
            let ghost prev = lines@.map_values(|s: String| s@);
            lines.push(l);
            proof {
                let f = |j: int, id: u64| after_line(j, n as int, id);
                assert(lines@.map_values(|s: String| s@) =~= prev.push(l@));
                assert(after@.take(i + 1).map(f) =~= after@.take(i as int).map(f).push(
                    f(i as int, after@[i as int]),
                ));
                assert(lines@.map_values(|s: String| s@) =~= mid + after@.take(i + 1).map(f));
            }
        }
        assert(after@.take(n as int) =~= after@);
        lines
    }
}

} // verus!
