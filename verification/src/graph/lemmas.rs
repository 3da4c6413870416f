//! Proofs that every world operation keeps the world well formed.
use vstd::prelude::*;

use crate::graph::components::Edge;
use crate::graph::model::{
    add_input, add_member, add_output, alive, attach, belongs_to, detach, drop_input,
    drop_member, drop_output, edge_fault, edge_listed, edge_of, empty_node, ends_at, fresh_entity,
    graph_of, inserting_edge, inserting_graph, inserting_node, node_of, removing_edge,
    removing_edges, removing_graph, removing_node, starts_at, wf, with_edge, with_graph,
    with_node, without, same_alive, same_labels, edges_kept_but, cloning_labels, moving_labels,
    ends_valid, linking, EntityState, NodeView,
};

verus! {

/// What removing one value from a list keeps and drops.
#[verifier::spinoff_prover]
pub proof fn lemma_without(s: Seq<u64>, v: u64)
    ensures
        forall|y: u64| #[trigger] without(s, v).contains(y) <==> (s.contains(y) && y != v),
        s.no_duplicates() ==> without(s, v).no_duplicates(),
        !s.contains(v) ==> without(s, v) == s,
        without(s, v).len() <= s.len(),
    decreases s.len(),
{
    reveal_with_fuel(Seq::filter, 1);
    if s.len() == 0 {
        assert(without(s, v) =~= s);
    } else {
        let t = s.drop_last();
        let x = s.last();
        lemma_without(t, v);
        let p = without(t, v);
        assert(forall|y: u64| s.contains(y) <==> (t.contains(y) || y == x)) by {
            assert forall|y: u64| s.contains(y) implies (t.contains(y) || y == x) by {
                let j = choose|j: int| 0 <= j < s.len() && s[j] == y;
                if j < s.len() - 1 {
                    assert(t[j] == y);
                }
            }
            assert forall|y: u64| t.contains(y) implies s.contains(y) by {
                let j = choose|j: int| 0 <= j < t.len() && t[j] == y;
                assert(s[j] == y);
            }
            assert(s[s.len() - 1] == x);
        }
        if x != v {
            assert(without(s, v) == p.push(x));
            assert forall|y: u64| #[trigger] without(s, v).contains(y) <==> (s.contains(y) && y
                != v) by {
                if p.push(x).contains(y) && y != x {
                    let j = choose|j: int| 0 <= j < p.push(x).len() && p.push(x)[j] == y;
                    assert(p[j] == y);
                }
                if p.contains(y) {
                    let j = choose|j: int| 0 <= j < p.len() && p[j] == y;
                    assert(p.push(x)[j] == y);
                }
                assert(p.push(x)[p.len() as int] == x);
            }
            if s.no_duplicates() {
                assert(t.no_duplicates()) by {
                    assert forall|i: int, j: int|
                        0 <= i < t.len() && 0 <= j < t.len() && i != j implies t[i] != t[j] by {
                        assert(s[i] == t[i] && s[j] == t[j]);
                    }
                }
                assert(!t.contains(x)) by {
                    if t.contains(x) {
                        let j = choose|j: int| 0 <= j < t.len() && t[j] == x;
                        assert(s[j] == s[s.len() - 1]);
                    }
                }
                assert(!p.contains(x));
                assert(p.push(x).no_duplicates()) by {
                    assert forall|i: int, j: int|
                        0 <= i < p.push(x).len() && 0 <= j < p.push(x).len() && i != j implies p.push(
                        x,
                    )[i] != p.push(x)[j] by {
                        if i < p.len() && j < p.len() {
                            assert(p.push(x)[i] == p[i] && p.push(x)[j] == p[j]);
                        } else if i < p.len() {
                            assert(p.push(x)[i] == p[i]);
                        } else if j < p.len() {
                            assert(p.push(x)[j] == p[j]);
                        }
                    }
                }
            }
            if !s.contains(v) {
                assert(!t.contains(v));
                assert(p == t);
                assert(s =~= t.push(x));
            }
        } else {
            assert(without(s, v) == p);
            assert(s.contains(v)) by {
                assert(s[s.len() - 1] == v);
            }
            if s.no_duplicates() {
                assert(t.no_duplicates()) by {
                    assert forall|i: int, j: int|
                        0 <= i < t.len() && 0 <= j < t.len() && i != j implies t[i] != t[j] by {
                        assert(s[i] == t[i] && s[j] == t[j]);
                    }
                }
            }
        }
    }
}

/// A list with one more value appended keeps no duplicates.
#[verifier::spinoff_prover]
pub proof fn lemma_push_unique(s: Seq<u64>, v: u64)
    requires
        s.no_duplicates(),
        !s.contains(v),
    ensures
        s.push(v).no_duplicates(),
        forall|y: u64| #[trigger] s.push(v).contains(y) <==> (s.contains(y) || y == v),
{
    assert forall|i: int, j: int|
        0 <= i < s.push(v).len() && 0 <= j < s.push(v).len() && i != j implies s.push(v)[i]
        != s.push(v)[j] by {
        if i < s.len() && j < s.len() {
            assert(s.push(v)[i] == s[i] && s.push(v)[j] == s[j]);
        } else if i < s.len() {
            assert(s.push(v)[i] == s[i]);
        } else if j < s.len() {
            assert(s.push(v)[j] == s[j]);
        }
    }
    assert forall|y: u64| #[trigger] s.push(v).contains(y) <==> (s.contains(y) || y == v) by {
        if s.push(v).contains(y) && y != v {
            let j = choose|j: int| 0 <= j < s.push(v).len() && s.push(v)[j] == y;
            assert(s[j] == y);
        }
        if s.contains(y) {
            let j = choose|j: int| 0 <= j < s.len() && s[j] == y;
            assert(s.push(v)[j] == y);
        }
        assert(s.push(v)[s.len() as int] == v);
    }
}

/// The world is well formed, except that entity `e` may be listed without
/// carrying the edge component that the lists claim.
pub open spec fn wf_except(w: Seq<EntityState>, e: u64) -> bool {
    &&& forall|x: u64|
        #![trigger w[x as int]]
        x < w.len() && !w[x as int].alive ==> {
            &&& w[x as int].node is None
            &&& w[x as int].edge is None
            &&& w[x as int].graph is None
        }
    &&& forall|f: u64|
        (#[trigger] edge_of(w, f)) is Some ==> (f == e || edge_listed(w, f, edge_of(w, f)->0))
    &&& forall|x: u64| (#[trigger] node_of(w, x)) is Some ==> node_listed_except(w, x, e)
    &&& forall|g: u64| (#[trigger] graph_of(w, g)) is Some ==> graph_listed_except(w, g, e)
}

/// The lists of node `x` are consistent, except that they may list `e`.
pub open spec fn node_listed_except(w: Seq<EntityState>, x: u64, e: u64) -> bool {
    let n = node_of(w, x)->0;
    {
            &&& n.inputs.no_duplicates()
            &&& n.outputs.no_duplicates()
            &&& forall|i: int|
                0 <= i < n.inputs.len() ==> n.inputs[i] == e || #[trigger] ends_at(
                    w,
                    n.inputs[i],
                    x,
                )
            &&& forall|i: int|
                0 <= i < n.outputs.len() ==> n.outputs[i] == e || #[trigger] starts_at(
                    w,
                    n.outputs[i],
                    x,
                )
    }
}

/// The edges of graph `g` are consistent, except that they may list `e`.
pub open spec fn graph_listed_except(w: Seq<EntityState>, g: u64, e: u64) -> bool {
    let es = graph_of(w, g)->0;
    &&& es.no_duplicates()
    &&& forall|i: int| 0 <= i < es.len() ==> es[i] == e || #[trigger] belongs_to(w, es[i], g)
}

/// Entity `e` is listed among the outputs, inputs and edges of at most the
/// entities named.
pub open spec fn listed_only_at(
    w: Seq<EntityState>,
    e: u64,
    oa: Option<u64>,
    ia: Option<u64>,
    ga: Option<u64>,
) -> bool {
    &&& forall|x: u64|
        (#[trigger] node_of(w, x)) is Some && node_of(w, x)->0.outputs.contains(e) ==> oa == Some(
            x,
        )
    &&& forall|x: u64|
        (#[trigger] node_of(w, x)) is Some && node_of(w, x)->0.inputs.contains(e) ==> ia == Some(x)
    &&& forall|g: u64|
        (#[trigger] graph_of(w, g)) is Some && graph_of(w, g)->0.contains(e) ==> ga == Some(g)
}

/// A well formed world is well formed except at any entity.
pub proof fn lemma_wf_except(w: Seq<EntityState>, e: u64)
    requires
        wf(w),
    ensures
        wf_except(w, e),
{
}

/// An entity with no edge component is listed nowhere in a well formed world.
pub proof fn lemma_unlisted(w: Seq<EntityState>, e: u64)
    requires
        wf(w),
        edge_of(w, e) is None,
    ensures
        listed_only_at(w, e, None, None, None),
{
    assert forall|x: u64|
        (#[trigger] node_of(w, x)) is Some && node_of(w, x)->0.outputs.contains(e) implies None::<
        u64,
    > == Some(x) by {
        let n = node_of(w, x)->0;
        let j = choose|j: int| 0 <= j < n.outputs.len() && n.outputs[j] == e;
        assert(starts_at(w, n.outputs[j], x));
    }
    assert forall|x: u64|
        (#[trigger] node_of(w, x)) is Some && node_of(w, x)->0.inputs.contains(e) implies None::<
        u64,
    > == Some(x) by {
        let n = node_of(w, x)->0;
        let j = choose|j: int| 0 <= j < n.inputs.len() && n.inputs[j] == e;
        assert(ends_at(w, n.inputs[j], x));
    }
    assert forall|g: u64|
        (#[trigger] graph_of(w, g)) is Some && graph_of(w, g)->0.contains(e) implies None::<u64>
        == Some(g) by {
        let es = graph_of(w, g)->0;
        let j = choose|j: int| 0 <= j < es.len() && es[j] == e;
        assert(belongs_to(w, es[j], g));
    }
}

/// In a well formed world, an edge is listed exactly where its component
/// says.
pub proof fn lemma_listed_at(w: Seq<EntityState>, e: u64, d: Edge)
    requires
        wf(w),
        edge_of(w, e) == Some(d),
    ensures
        listed_only_at(w, e, Some(d.input), Some(d.output), Some(d.graph)),
{
    assert forall|x: u64|
        (#[trigger] node_of(w, x)) is Some && node_of(w, x)->0.outputs.contains(e) implies Some(
        d.input,
    ) == Some(x) by {
        let n = node_of(w, x)->0;
        let j = choose|j: int| 0 <= j < n.outputs.len() && n.outputs[j] == e;
        assert(starts_at(w, n.outputs[j], x));
    }
    assert forall|x: u64|
        (#[trigger] node_of(w, x)) is Some && node_of(w, x)->0.inputs.contains(e) implies Some(
        d.output,
    ) == Some(x) by {
        let n = node_of(w, x)->0;
        let j = choose|j: int| 0 <= j < n.inputs.len() && n.inputs[j] == e;
        assert(ends_at(w, n.inputs[j], x));
    }
    assert forall|g: u64|
        (#[trigger] graph_of(w, g)) is Some && graph_of(w, g)->0.contains(e) implies Some(d.graph)
        == Some(g) by {
        let es = graph_of(w, g)->0;
        let j = choose|j: int| 0 <= j < es.len() && es[j] == e;
        assert(belongs_to(w, es[j], g));
    }
}

/// Setting the edge component of `e` leaves a world well formed except at
/// `e`, with `e` listed where it was.
#[verifier::spinoff_prover]
pub proof fn lemma_set_edge(
    w: Seq<EntityState>,
    e: u64,
    c: Option<Edge>,
    oa: Option<u64>,
    ia: Option<u64>,
    ga: Option<u64>,
)
    requires
        wf_except(w, e),
        listed_only_at(w, e, oa, ia, ga),
        e < w.len(),
        c is None || w[e as int].alive,
    ensures
        wf_except(with_edge(w, e, c), e),
        listed_only_at(with_edge(w, e, c), e, oa, ia, ga),
        edge_of(with_edge(w, e, c), e) == c,
{
    let w1 = with_edge(w, e, c);
    assert forall|y: u64| y != e implies #[trigger] edge_of(w1, y) == edge_of(w, y) by {}
    assert forall|y: u64| #[trigger] node_of(w1, y) == node_of(w, y) by {}
    assert forall|y: u64| #[trigger] graph_of(w1, y) == graph_of(w, y) by {}
    assert forall|f: u64, x: u64| f != e implies #[trigger] ends_at(w1, f, x) == ends_at(w, f, x) by {
        assert(edge_of(w1, f) == edge_of(w, f));
    }
    assert forall|f: u64, x: u64| f != e implies #[trigger] starts_at(w1, f, x) == starts_at(w, f, x) by {
        assert(edge_of(w1, f) == edge_of(w, f));
    }
    assert forall|f: u64, x: u64| f != e implies #[trigger] belongs_to(w1, f, x) == belongs_to(w, f, x) by {
        assert(edge_of(w1, f) == edge_of(w, f));
    }
    assert forall|f: u64|
        (#[trigger] edge_of(w1, f)) is Some implies (f == e || edge_listed(
        w1,
        f,
        edge_of(w1, f)->0,
    )) by {
        if f != e {
            assert(edge_of(w, f) == edge_of(w1, f));
            let d = edge_of(w, f)->0;
            assert(edge_listed(w, f, d));
            assert(node_of(w1, d.input) == node_of(w, d.input));
            assert(node_of(w1, d.output) == node_of(w, d.output));
            assert(graph_of(w1, d.graph) == graph_of(w, d.graph));
        }
    }
    assert forall|x: u64| #![trigger w1[x as int]] x < w1.len() && !w1[x as int].alive implies {
        &&& w1[x as int].node is None
        &&& w1[x as int].edge is None
        &&& w1[x as int].graph is None
    } by {
        assert(w[x as int].alive == w1[x as int].alive);
    }
    assert forall|x: u64| (#[trigger] node_of(w1, x)) is Some implies node_listed_except(w1, x, e) by {
        assert(node_of(w, x) == node_of(w1, x));
        assert(node_listed_except(w, x, e));
        let n = node_of(w, x)->0;
        assert forall|i: int| 0 <= i < n.inputs.len() implies n.inputs[i] == e
            || #[trigger] ends_at(w1, n.inputs[i], x) by {
            if n.inputs[i] != e {
                assert(ends_at(w, n.inputs[i], x));
            }
        }
        assert forall|i: int| 0 <= i < n.outputs.len() implies n.outputs[i] == e
            || #[trigger] starts_at(w1, n.outputs[i], x) by {
            if n.outputs[i] != e {
                assert(starts_at(w, n.outputs[i], x));
            }
        }
    }
    assert forall|g: u64| (#[trigger] graph_of(w1, g)) is Some implies graph_listed_except(w1, g, e) by {
        assert(graph_of(w, g) == graph_of(w1, g));
        assert(graph_listed_except(w, g, e));
        let es = graph_of(w, g)->0;
        assert forall|i: int| 0 <= i < es.len() implies es[i] == e || #[trigger] belongs_to(
            w1,
            es[i],
            g,
        ) by {
            if es[i] != e {
                assert(belongs_to(w, es[i], g));
            }
        }
    }
}

/// Worlds with the same edge components agree on where each edge runs.
pub proof fn lemma_same_edges(w: Seq<EntityState>, w2: Seq<EntityState>)
    requires
        forall|y: u64| #[trigger] edge_of(w2, y) == edge_of(w, y),
    ensures
        forall|f: u64, x: u64| #[trigger] ends_at(w2, f, x) == ends_at(w, f, x),
        forall|f: u64, x: u64| #[trigger] starts_at(w2, f, x) == starts_at(w, f, x),
        forall|f: u64, x: u64| #[trigger] belongs_to(w2, f, x) == belongs_to(w, f, x),
{
    assert forall|f: u64, x: u64| #[trigger] ends_at(w2, f, x) == ends_at(w, f, x) by {
        assert(edge_of(w2, f) == edge_of(w, f));
    }
    assert forall|f: u64, x: u64| #[trigger] starts_at(w2, f, x) == starts_at(w, f, x) by {
        assert(edge_of(w2, f) == edge_of(w, f));
    }
    assert forall|f: u64, x: u64| #[trigger] belongs_to(w2, f, x) == belongs_to(w, f, x) by {
        assert(edge_of(w2, f) == edge_of(w, f));
    }
}

/// Node `x` may lose its node component or have its lists replaced, while
/// every other component of the world stays.
pub open spec fn only_node_changes(w: Seq<EntityState>, w2: Seq<EntityState>, x: u64) -> bool {
    &&& w2.len() == w.len()
    &&& forall|y: u64| #[trigger] edge_of(w2, y) == edge_of(w, y)
    &&& forall|y: u64| #[trigger] graph_of(w2, y) == graph_of(w, y)
    &&& forall|y: u64| y != x ==> #[trigger] node_of(w2, y) == node_of(w, y)
    &&& forall|y: u64| #![trigger w2[y as int]] y < w.len() ==> w2[y as int].alive == w[y as int].alive
        && w2[y as int].name == w[y as int].name && w2[y as int].markers == w[y as int].markers
}

/// Graph `g` may lose its graph component or have its list replaced, while
/// every other component of the world stays.
pub open spec fn only_graph_changes(w: Seq<EntityState>, w2: Seq<EntityState>, g: u64) -> bool {
    &&& w2.len() == w.len()
    &&& forall|y: u64| #[trigger] edge_of(w2, y) == edge_of(w, y)
    &&& forall|y: u64| #[trigger] node_of(w2, y) == node_of(w, y)
    &&& forall|y: u64| y != g ==> #[trigger] graph_of(w2, y) == graph_of(w, y)
    &&& forall|y: u64| #![trigger w2[y as int]] y < w.len() ==> w2[y as int].alive == w[y as int].alive
        && w2[y as int].name == w[y as int].name && w2[y as int].markers == w[y as int].markers
}

/// Dropping `e` from the outputs of `a` keeps the world well formed except
/// at `e`, and `e` is no longer listed among any outputs.
#[verifier::spinoff_prover]
pub proof fn lemma_drop_output(
    w: Seq<EntityState>,
    a: u64,
    e: u64,
    oa: Option<u64>,
    ia: Option<u64>,
    ga: Option<u64>,
)
    requires
        wf_except(w, e),
        edge_of(w, e) is None,
        listed_only_at(w, e, oa, ia, ga),
        oa is None || oa == Some(a),
    ensures
        wf_except(drop_output(w, a, e), e),
        edge_of(drop_output(w, a, e), e) is None,
        listed_only_at(drop_output(w, a, e), e, None, ia, ga),
        only_node_changes(w, drop_output(w, a, e), a),
{
    let w2 = drop_output(w, a, e);
    assert(only_node_changes(w, w2, a));
    if node_of(w, a) is Some {
        let n = node_of(w, a)->0;
        lemma_without(n.outputs, e);
        let outs = without(n.outputs, e);
        assert(node_listed_except(w, a, e));
        lemma_same_edges(w, w2);
        assert forall|f: u64|
            (#[trigger] edge_of(w2, f)) is Some implies (f == e || edge_listed(
            w2,
            f,
            edge_of(w2, f)->0,
        )) by {
            if f != e {
                let d = edge_of(w, f)->0;
                assert(edge_listed(w, f, d));
                if d.input == a {
                    assert(outs.contains(f));
                    assert(outs.len() > 0);
                }
                if d.output == a {
                    assert(n.inputs.contains(f));
                    assert(n.inputs.len() > 0);
                }
            }
        }
        assert forall|x: u64| #![trigger w2[x as int]] x < w2.len() && !w2[x as int].alive implies {
            &&& w2[x as int].node is None
            &&& w2[x as int].edge is None
            &&& w2[x as int].graph is None
        } by {
            assert(edge_of(w2, x) == edge_of(w, x));
            assert(graph_of(w2, x) == graph_of(w, x));
            if x != a {
                assert(node_of(w2, x) == node_of(w, x));
            }
        }
        assert forall|x: u64|
            (#[trigger] node_of(w2, x)) is Some implies node_listed_except(w2, x, e) by {
            if x != a {
                assert(node_of(w2, x) == node_of(w, x));
                assert(node_listed_except(w, x, e));
            } else {
                let m = node_of(w2, a)->0;
                assert(m.inputs == n.inputs && m.outputs == outs);
                assert forall|i: int| 0 <= i < m.inputs.len() implies m.inputs[i] == e
                    || #[trigger] ends_at(w2, m.inputs[i], x) by {
                    if m.inputs[i] != e {
                        assert(ends_at(w, n.inputs[i], x));
                    }
                }
                assert forall|i: int| 0 <= i < m.outputs.len() implies m.outputs[i] == e
                    || #[trigger] starts_at(w2, m.outputs[i], x) by {
                    assert(outs.contains(outs[i]));
                    let j = choose|j: int| 0 <= j < n.outputs.len() && n.outputs[j] == outs[i];
                    assert(starts_at(w, n.outputs[j], x));
                }
            }
        }
        assert forall|g: u64|
            (#[trigger] graph_of(w2, g)) is Some implies graph_listed_except(w2, g, e) by {
            assert(graph_of(w2, g) == graph_of(w, g));
            assert(graph_listed_except(w, g, e));
        }
        assert forall|x: u64|
            (#[trigger] node_of(w2, x)) is Some && node_of(w2, x)->0.outputs.contains(e) implies None::<
            u64,
        > == Some(x) by {
            if x != a {
                assert(node_of(w2, x) == node_of(w, x));
            }
        }
        assert forall|x: u64|
            (#[trigger] node_of(w2, x)) is Some && node_of(w2, x)->0.inputs.contains(e) implies ia
            == Some(x) by {
            assert(node_of(w, x) is Some && node_of(w, x)->0.inputs.contains(e));
        }
        assert forall|g: u64|
            (#[trigger] graph_of(w2, g)) is Some && graph_of(w2, g)->0.contains(e) implies ga
            == Some(g) by {
            assert(graph_of(w2, g) == graph_of(w, g));
        }
    } else {
        assert(w2 == w);
        assert forall|x: u64|
            (#[trigger] node_of(w2, x)) is Some && node_of(w2, x)->0.outputs.contains(e) implies None::<
            u64,
        > == Some(x) by {
            assert(oa == Some(x));
        }
    }
}

/// Dropping `e` from the inputs of `a` keeps the world well formed except
/// at `e`, and `e` is no longer listed among any inputs.
#[verifier::spinoff_prover]
pub proof fn lemma_drop_input(
    w: Seq<EntityState>,
    a: u64,
    e: u64,
    oa: Option<u64>,
    ia: Option<u64>,
    ga: Option<u64>,
)
    requires
        wf_except(w, e),
        edge_of(w, e) is None,
        listed_only_at(w, e, oa, ia, ga),
        ia is None || ia == Some(a),
    ensures
        wf_except(drop_input(w, a, e), e),
        edge_of(drop_input(w, a, e), e) is None,
        listed_only_at(drop_input(w, a, e), e, oa, None, ga),
        only_node_changes(w, drop_input(w, a, e), a),
{
    let w2 = drop_input(w, a, e);
    assert(only_node_changes(w, w2, a));
    if node_of(w, a) is Some {
        let n = node_of(w, a)->0;
        lemma_without(n.inputs, e);
        let ins = without(n.inputs, e);
        assert(node_listed_except(w, a, e));
        lemma_same_edges(w, w2);
        assert forall|f: u64|
            (#[trigger] edge_of(w2, f)) is Some implies (f == e || edge_listed(
            w2,
            f,
            edge_of(w2, f)->0,
        )) by {
            if f != e {
                let d = edge_of(w, f)->0;
                assert(edge_listed(w, f, d));
                if d.input == a {
                    assert(n.outputs.contains(f));
                    assert(n.outputs.len() > 0);
                }
                if d.output == a {
                    assert(ins.contains(f));
                    assert(ins.len() > 0);
                }
            }
        }
        assert forall|x: u64| #![trigger w2[x as int]] x < w2.len() && !w2[x as int].alive implies {
            &&& w2[x as int].node is None
            &&& w2[x as int].edge is None
            &&& w2[x as int].graph is None
        } by {
            assert(edge_of(w2, x) == edge_of(w, x));
            assert(graph_of(w2, x) == graph_of(w, x));
            if x != a {
                assert(node_of(w2, x) == node_of(w, x));
            }
        }
        assert forall|x: u64|
            (#[trigger] node_of(w2, x)) is Some implies node_listed_except(w2, x, e) by {
            if x != a {
                assert(node_of(w2, x) == node_of(w, x));
                assert(node_listed_except(w, x, e));
            } else {
                let m = node_of(w2, a)->0;
                assert(m.outputs == n.outputs && m.inputs == ins);
                assert forall|i: int| 0 <= i < m.outputs.len() implies m.outputs[i] == e
                    || #[trigger] starts_at(w2, m.outputs[i], x) by {
                    if m.outputs[i] != e {
                        assert(starts_at(w, n.outputs[i], x));
                    }
                }
                assert forall|i: int| 0 <= i < m.inputs.len() implies m.inputs[i] == e
                    || #[trigger] ends_at(w2, m.inputs[i], x) by {
                    assert(ins.contains(ins[i]));
                    let j = choose|j: int| 0 <= j < n.inputs.len() && n.inputs[j] == ins[i];
                    assert(ends_at(w, n.inputs[j], x));
                }
            }
        }
        assert forall|g: u64|
            (#[trigger] graph_of(w2, g)) is Some implies graph_listed_except(w2, g, e) by {
            assert(graph_of(w2, g) == graph_of(w, g));
            assert(graph_listed_except(w, g, e));
        }
        assert forall|x: u64|
            (#[trigger] node_of(w2, x)) is Some && node_of(w2, x)->0.inputs.contains(e) implies None::<
            u64,
        > == Some(x) by {
            if x != a {
                assert(node_of(w2, x) == node_of(w, x));
            }
        }
        assert forall|x: u64|
            (#[trigger] node_of(w2, x)) is Some && node_of(w2, x)->0.outputs.contains(e) implies oa
            == Some(x) by {
            assert(node_of(w, x) is Some && node_of(w, x)->0.outputs.contains(e));
        }
        assert forall|g: u64|
            (#[trigger] graph_of(w2, g)) is Some && graph_of(w2, g)->0.contains(e) implies ga
            == Some(g) by {
            assert(graph_of(w2, g) == graph_of(w, g));
        }
    } else {
        assert(w2 == w);
        assert forall|x: u64|
            (#[trigger] node_of(w2, x)) is Some && node_of(w2, x)->0.inputs.contains(e) implies None::<
            u64,
        > == Some(x) by {
            assert(ia == Some(x));
        }
    }
}

/// Dropping `e` from the edges of graph `g` keeps the world well formed
/// except at `e`, and `e` is no longer listed by any graph.
#[verifier::spinoff_prover]
pub proof fn lemma_drop_member(
    w: Seq<EntityState>,
    g: u64,
    e: u64,
    oa: Option<u64>,
    ia: Option<u64>,
    ga: Option<u64>,
)
    requires
        wf_except(w, e),
        edge_of(w, e) is None,
        listed_only_at(w, e, oa, ia, ga),
        ga is None || ga == Some(g),
    ensures
        wf_except(drop_member(w, g, e), e),
        edge_of(drop_member(w, g, e), e) is None,
        listed_only_at(drop_member(w, g, e), e, oa, ia, None),
        only_graph_changes(w, drop_member(w, g, e), g),
{
    let w2 = drop_member(w, g, e);
    assert(only_graph_changes(w, w2, g));
    lemma_same_edges(w, w2);
    if graph_of(w, g) is Some {
        let es = graph_of(w, g)->0;
        lemma_without(es, e);
        let rest = without(es, e);
        assert(graph_listed_except(w, g, e));
        assert forall|f: u64|
            (#[trigger] edge_of(w2, f)) is Some implies (f == e || edge_listed(
            w2,
            f,
            edge_of(w2, f)->0,
        )) by {
            if f != e {
                let d = edge_of(w, f)->0;
                assert(edge_listed(w, f, d));
                if d.graph == g {
                    assert(rest.contains(f));
                    assert(rest.len() > 0);
                }
            }
        }
        assert forall|x: u64| #![trigger w2[x as int]] x < w2.len() && !w2[x as int].alive implies {
            &&& w2[x as int].node is None
            &&& w2[x as int].edge is None
            &&& w2[x as int].graph is None
        } by {
            assert(edge_of(w2, x) == edge_of(w, x));
            assert(node_of(w2, x) == node_of(w, x));
            if x != g {
                assert(graph_of(w2, x) == graph_of(w, x));
            }
        }
        assert forall|x: u64|
            (#[trigger] node_of(w2, x)) is Some implies node_listed_except(w2, x, e) by {
            assert(node_of(w2, x) == node_of(w, x));
            assert(node_listed_except(w, x, e));
        }
        assert forall|h: u64|
            (#[trigger] graph_of(w2, h)) is Some implies graph_listed_except(w2, h, e) by {
            if h != g {
                assert(graph_of(w2, h) == graph_of(w, h));
                assert(graph_listed_except(w, h, e));
            } else {
                let m = graph_of(w2, g)->0;
                assert(m == rest);
                assert forall|i: int| 0 <= i < m.len() implies m[i] == e || #[trigger] belongs_to(
                    w2,
                    m[i],
                    h,
                ) by {
                    assert(rest.contains(rest[i]));
                    let j = choose|j: int| 0 <= j < es.len() && es[j] == rest[i];
                    assert(belongs_to(w, es[j], h));
                }
            }
        }
        assert forall|x: u64|
            (#[trigger] node_of(w2, x)) is Some && node_of(w2, x)->0.outputs.contains(e) implies oa
            == Some(x) by {
            assert(node_of(w2, x) == node_of(w, x));
        }
        assert forall|x: u64|
            (#[trigger] node_of(w2, x)) is Some && node_of(w2, x)->0.inputs.contains(e) implies ia
            == Some(x) by {
            assert(node_of(w2, x) == node_of(w, x));
        }
        assert forall|h: u64|
            (#[trigger] graph_of(w2, h)) is Some && graph_of(w2, h)->0.contains(e) implies None::<
            u64,
        > == Some(h) by {
            if h != g {
                assert(graph_of(w2, h) == graph_of(w, h));
            }
        }
    } else {
        assert(w2 == w);
        assert forall|h: u64|
            (#[trigger] graph_of(w2, h)) is Some && graph_of(w2, h)->0.contains(e) implies None::<
            u64,
        > == Some(h) by {
            assert(ga == Some(h));
        }
    }
}

/// A world well formed except at an entity that has no edge component and
/// is listed nowhere is well formed.
pub proof fn lemma_restore_wf(w: Seq<EntityState>, e: u64)
    requires
        wf_except(w, e),
        edge_of(w, e) is None,
        listed_only_at(w, e, None, None, None),
    ensures
        wf(w),
{
    assert forall|x: u64| (#[trigger] node_of(w, x)) is Some implies crate::graph::model::node_listed(
        w,
        x,
        node_of(w, x)->0,
    ) by {
        assert(node_listed_except(w, x, e));
        let n = node_of(w, x)->0;
        assert forall|i: int| 0 <= i < n.inputs.len() implies #[trigger] ends_at(w, n.inputs[i], x) by {
            if n.inputs[i] == e {
                assert(n.inputs.contains(e));
            }
        }
        assert forall|i: int| 0 <= i < n.outputs.len() implies #[trigger] starts_at(w, n.outputs[i], x) by {
            if n.outputs[i] == e {
                assert(n.outputs.contains(e));
            }
        }
    }
    assert forall|g: u64| (#[trigger] graph_of(w, g)) is Some implies crate::graph::model::graph_listed(
        w,
        g,
        graph_of(w, g)->0,
    ) by {
        assert(graph_listed_except(w, g, e));
        let es = graph_of(w, g)->0;
        assert forall|i: int| 0 <= i < es.len() implies #[trigger] belongs_to(w, es[i], g) by {
            if es[i] == e {
                assert(es.contains(e));
            }
        }
    }
}

/// Detaching `e`, listed at most where `d` names, from a world well formed
/// except at `e` gives a well formed world in which only lists and
/// emptied components changed.
#[verifier::spinoff_prover]
pub proof fn lemma_detach_from(
    w: Seq<EntityState>,
    e: u64,
    d: Edge,
    oa: Option<u64>,
    ia: Option<u64>,
    ga: Option<u64>,
)
    requires
        wf_except(w, e),
        listed_only_at(w, e, oa, ia, ga),
        oa is None || oa == Some(d.input),
        ia is None || ia == Some(d.output),
        ga is None || ga == Some(d.graph),
    ensures
        wf(detach(w, e, d)),
        detach(w, e, d).len() == w.len(),
        edge_of(detach(w, e, d), e) is None,
        forall|f: u64| f != e ==> #[trigger] edge_of(detach(w, e, d), f) == edge_of(w, f),
        forall|y: u64|
            #![trigger detach(w, e, d)[y as int]]
            y < w.len() ==> detach(w, e, d)[y as int].alive == w[y as int].alive
                && detach(w, e, d)[y as int].name == w[y as int].name && detach(w, e, d)[
                y as int].markers == w[y as int].markers,
{
    let w1 = with_edge(w, e, None);
    if e < w.len() {
        lemma_set_edge(w, e, None, oa, ia, ga);
    } else {
        assert(with_edge(w, e, None) == w);
    }
    let w2 = drop_output(w1, d.input, e);
    lemma_drop_output(w1, d.input, e, oa, ia, ga);
    let w3 = drop_input(w2, d.output, e);
    lemma_drop_input(w2, d.output, e, None, ia, ga);
    let w4 = drop_member(w3, d.graph, e);
    lemma_drop_member(w3, d.graph, e, None, None, ga);
    lemma_restore_wf(w4, e);
    assert forall|f: u64| f != e implies #[trigger] edge_of(w4, f) == edge_of(w, f) by {
        assert(edge_of(w1, f) == edge_of(w, f));
        assert(edge_of(w2, f) == edge_of(w1, f));
        assert(edge_of(w3, f) == edge_of(w2, f));
        assert(edge_of(w4, f) == edge_of(w3, f));
    }
    assert forall|y: u64|
        #![trigger w4[y as int]]
        y < w.len() implies w4[y as int].alive == w[y as int].alive && w4[y as int].name
        == w[y as int].name && w4[y as int].markers == w[y as int].markers by {
        assert(w1[y as int].alive == w[y as int].alive);
        assert(w2[y as int].alive == w1[y as int].alive);
        assert(w3[y as int].alive == w2[y as int].alive);
    }
}

/// Detaching an edge from a well formed world keeps it well formed.
#[verifier::spinoff_prover]
pub proof fn lemma_detach(w: Seq<EntityState>, e: u64)
    requires
        wf(w),
        edge_of(w, e) is Some,
    ensures
        wf(detach(w, e, edge_of(w, e)->0)),
        detach(w, e, edge_of(w, e)->0).len() == w.len(),
        edge_of(detach(w, e, edge_of(w, e)->0), e) is None,
        forall|f: u64|
            f != e ==> #[trigger] edge_of(detach(w, e, edge_of(w, e)->0), f) == edge_of(w, f),
        forall|y: u64|
            #![trigger detach(w, e, edge_of(w, e)->0)[y as int]]
            y < w.len() ==> detach(w, e, edge_of(w, e)->0)[y as int].alive == w[y as int].alive
                && detach(w, e, edge_of(w, e)->0)[y as int].name == w[y as int].name && detach(
                w,
                e,
                edge_of(w, e)->0,
            )[y as int].markers == w[y as int].markers,
{
    let d = edge_of(w, e)->0;
    lemma_wf_except(w, e);
    lemma_listed_at(w, e, d);
    lemma_detach_from(w, e, d, Some(d.input), Some(d.output), Some(d.graph));
}

/// The world is well formed, except that edge `e`, whose component is `d`,
/// is listed only at the places flagged so far.
pub open spec fn wf_adding(
    w: Seq<EntityState>,
    e: u64,
    d: Edge,
    oa: bool,
    ia: bool,
    ga: bool,
) -> bool {
    &&& forall|x: u64|
        #![trigger w[x as int]]
        x < w.len() && !w[x as int].alive ==> {
            &&& w[x as int].node is None
            &&& w[x as int].edge is None
            &&& w[x as int].graph is None
        }
    &&& edge_of(w, e) == Some(d)
    &&& d.input != e && d.output != e && d.graph != e
    &&& alive(w, d.input) && alive(w, d.output) && alive(w, d.graph)
    &&& forall|f: u64|
        (#[trigger] edge_of(w, f)) is Some ==> (f == e || edge_listed(w, f, edge_of(w, f)->0))
    &&& forall|x: u64|
        (#[trigger] node_of(w, x)) is Some ==> crate::graph::model::node_listed(
            w,
            x,
            node_of(w, x)->0,
        )
    &&& forall|g: u64|
        (#[trigger] graph_of(w, g)) is Some ==> crate::graph::model::graph_listed(
            w,
            g,
            graph_of(w, g)->0,
        )
    &&& oa ==> node_of(w, d.input) is Some && node_of(w, d.input)->0.outputs.contains(e)
    &&& ia ==> node_of(w, d.output) is Some && node_of(w, d.output)->0.inputs.contains(e)
    &&& ga ==> graph_of(w, d.graph) is Some && graph_of(w, d.graph)->0.contains(e)
}

/// Giving an unlisted entity an edge component starts the adding.
#[verifier::spinoff_prover]
pub proof fn lemma_start_adding(w: Seq<EntityState>, e: u64, d: Edge)
    requires
        wf(w),
        alive(w, e),
        edge_of(w, e) is None,
        d.input != e && d.output != e && d.graph != e,
        alive(w, d.input) && alive(w, d.output) && alive(w, d.graph),
    ensures
        wf_adding(with_edge(w, e, Some(d)), e, d, false, false, false),
{
    let w2 = with_edge(w, e, Some(d));
    lemma_unlisted(w, e);
    assert forall|y: u64| y != e implies #[trigger] edge_of(w2, y) == edge_of(w, y) by {}
    assert forall|y: u64| #[trigger] node_of(w2, y) == node_of(w, y) by {}
    assert forall|y: u64| #[trigger] graph_of(w2, y) == graph_of(w, y) by {}
    assert forall|f: u64, x: u64| f != e implies #[trigger] ends_at(w2, f, x) == ends_at(w, f, x) by {
        assert(edge_of(w2, f) == edge_of(w, f));
    }
    assert forall|f: u64, x: u64| f != e implies #[trigger] starts_at(w2, f, x) == starts_at(
        w,
        f,
        x,
    ) by {
        assert(edge_of(w2, f) == edge_of(w, f));
    }
    assert forall|f: u64, x: u64| f != e implies #[trigger] belongs_to(w2, f, x) == belongs_to(
        w,
        f,
        x,
    ) by {
        assert(edge_of(w2, f) == edge_of(w, f));
    }
    assert forall|x: u64| #![trigger w2[x as int]] x < w2.len() && !w2[x as int].alive implies {
        &&& w2[x as int].node is None
        &&& w2[x as int].edge is None
        &&& w2[x as int].graph is None
    } by {
        assert(w[x as int].alive == w2[x as int].alive);
    }
    assert forall|f: u64|
        (#[trigger] edge_of(w2, f)) is Some implies (f == e || edge_listed(
        w2,
        f,
        edge_of(w2, f)->0,
    )) by {
        if f != e {
            assert(edge_of(w, f) == edge_of(w2, f));
            let df = edge_of(w, f)->0;
            assert(edge_listed(w, f, df));
        }
    }
    assert forall|x: u64|
        (#[trigger] node_of(w2, x)) is Some implies crate::graph::model::node_listed(
        w2,
        x,
        node_of(w2, x)->0,
    ) by {
        assert(node_of(w, x) == node_of(w2, x));
        let n = node_of(w, x)->0;
        assert(crate::graph::model::node_listed(w, x, n));
        assert forall|i: int| 0 <= i < n.inputs.len() implies #[trigger] ends_at(w2, n.inputs[i], x) by {
            assert(ends_at(w, n.inputs[i], x));
            if n.inputs[i] == e {
                assert(n.inputs.contains(e));
            }
        }
        assert forall|i: int| 0 <= i < n.outputs.len() implies #[trigger] starts_at(w2, n.outputs[i], x) by {
            assert(starts_at(w, n.outputs[i], x));
            if n.outputs[i] == e {
                assert(n.outputs.contains(e));
            }
        }
    }
    assert forall|g: u64|
        (#[trigger] graph_of(w2, g)) is Some implies crate::graph::model::graph_listed(
        w2,
        g,
        graph_of(w2, g)->0,
    ) by {
        assert(graph_of(w, g) == graph_of(w2, g));
        let es = graph_of(w, g)->0;
        assert(crate::graph::model::graph_listed(w, g, es));
        assert forall|i: int| 0 <= i < es.len() implies #[trigger] belongs_to(w2, es[i], g) by {
            assert(belongs_to(w, es[i], g));
            if es[i] == e {
                assert(es.contains(e));
            }
        }
    }
}

/// Listing `e` among the outputs of its input keeps the adding going.
#[verifier::spinoff_prover]
pub proof fn lemma_add_output(w: Seq<EntityState>, e: u64, d: Edge, ia: bool, ga: bool)
    requires
        wf_adding(w, e, d, false, ia, ga),
    ensures
        wf_adding(add_output(w, d.input, e), e, d, true, ia, ga),
        only_node_changes(w, add_output(w, d.input, e), d.input),
{
    let a = d.input;
    let w2 = add_output(w, a, e);
    let n = match node_of(w, a) {
        Some(n) => n,
        None => empty_node(),
    };
    assert(only_node_changes(w, w2, a));
    lemma_same_edges(w, w2);
    let outs = if n.outputs.contains(e) { n.outputs } else { n.outputs.push(e) };
    assert(node_of(w2, a) == Some(NodeView { inputs: n.inputs, outputs: outs }));
    assert(n.outputs.no_duplicates() && n.inputs.no_duplicates()) by {
        if node_of(w, a) is Some {
            assert(crate::graph::model::node_listed(w, a, n));
        }
    }
    if !n.outputs.contains(e) {
        lemma_push_unique(n.outputs, e);
    }
    assert forall|f: u64| n.outputs.contains(f) implies outs.contains(f) by {
        if !n.outputs.contains(e) {
            lemma_push_unique(n.outputs, e);
        }
    }
    assert forall|f: u64|
        (#[trigger] edge_of(w2, f)) is Some implies (f == e || edge_listed(
        w2,
        f,
        edge_of(w2, f)->0,
    )) by {
        if f != e {
            let df = edge_of(w, f)->0;
            assert(edge_listed(w, f, df));
        }
    }
    assert forall|x: u64| #![trigger w2[x as int]] x < w2.len() && !w2[x as int].alive implies {
        &&& w2[x as int].node is None
        &&& w2[x as int].edge is None
        &&& w2[x as int].graph is None
    } by {
        assert(edge_of(w2, x) == edge_of(w, x));
        assert(graph_of(w2, x) == graph_of(w, x));
        if x != a {
            assert(node_of(w2, x) == node_of(w, x));
        }
    }
    assert forall|x: u64|
        (#[trigger] node_of(w2, x)) is Some implies crate::graph::model::node_listed(
        w2,
        x,
        node_of(w2, x)->0,
    ) by {
        if x != a {
            assert(node_of(w2, x) == node_of(w, x));
            assert(crate::graph::model::node_listed(w, x, node_of(w, x)->0));
        } else {
            assert forall|i: int| 0 <= i < n.inputs.len() implies #[trigger] ends_at(
                w2,
                n.inputs[i],
                x,
            ) by {
                assert(ends_at(w, n.inputs[i], x));
            }
            assert forall|i: int| 0 <= i < outs.len() implies #[trigger] starts_at(w2, outs[i], x) by {
                if i < n.outputs.len() {
                    assert(outs[i] == n.outputs[i]);
                    assert(starts_at(w, n.outputs[i], x));
                } else {
                    assert(outs[i] == e);
                }
            }
        }
    }
    assert forall|g: u64|
        (#[trigger] graph_of(w2, g)) is Some implies crate::graph::model::graph_listed(
        w2,
        g,
        graph_of(w2, g)->0,
    ) by {
        assert(graph_of(w2, g) == graph_of(w, g));
        assert(crate::graph::model::graph_listed(w, g, graph_of(w, g)->0));
    }
    assert(ia ==> node_of(w2, d.output) is Some && node_of(w2, d.output)->0.inputs.contains(e)) by {
        if ia && d.output != a {
            assert(node_of(w2, d.output) == node_of(w, d.output));
        }
    }
    assert(alive(w2, d.input) && alive(w2, d.output) && alive(w2, d.graph)) by {
        assert(w2[d.input as int].alive == w[d.input as int].alive);
        assert(w2[d.output as int].alive == w[d.output as int].alive);
        assert(w2[d.graph as int].alive == w[d.graph as int].alive);
    }
}

/// Listing `e` among the inputs of its output keeps the adding going.
#[verifier::spinoff_prover]
pub proof fn lemma_add_input(w: Seq<EntityState>, e: u64, d: Edge, oa: bool, ga: bool)
    requires
        wf_adding(w, e, d, oa, false, ga),
    ensures
        wf_adding(add_input(w, d.output, e), e, d, oa, true, ga),
        only_node_changes(w, add_input(w, d.output, e), d.output),
{
    let a = d.output;
    let w2 = add_input(w, a, e);
    let n = match node_of(w, a) {
        Some(n) => n,
        None => empty_node(),
    };
    assert(only_node_changes(w, w2, a));
    lemma_same_edges(w, w2);
    let ins = if n.inputs.contains(e) { n.inputs } else { n.inputs.push(e) };
    assert(node_of(w2, a) == Some(NodeView { inputs: ins, outputs: n.outputs }));
    assert(n.outputs.no_duplicates() && n.inputs.no_duplicates()) by {
        if node_of(w, a) is Some {
            assert(crate::graph::model::node_listed(w, a, n));
        }
    }
    if !n.inputs.contains(e) {
        lemma_push_unique(n.inputs, e);
    }
    assert forall|f: u64| n.inputs.contains(f) implies ins.contains(f) by {
        if !n.inputs.contains(e) {
            lemma_push_unique(n.inputs, e);
        }
    }
    assert forall|f: u64|
        (#[trigger] edge_of(w2, f)) is Some implies (f == e || edge_listed(
        w2,
        f,
        edge_of(w2, f)->0,
    )) by {
        if f != e {
            let df = edge_of(w, f)->0;
            assert(edge_listed(w, f, df));
        }
    }
    assert forall|x: u64| #![trigger w2[x as int]] x < w2.len() && !w2[x as int].alive implies {
        &&& w2[x as int].node is None
        &&& w2[x as int].edge is None
        &&& w2[x as int].graph is None
    } by {
        assert(edge_of(w2, x) == edge_of(w, x));
        assert(graph_of(w2, x) == graph_of(w, x));
        if x != a {
            assert(node_of(w2, x) == node_of(w, x));
        }
    }
    assert forall|x: u64|
        (#[trigger] node_of(w2, x)) is Some implies crate::graph::model::node_listed(
        w2,
        x,
        node_of(w2, x)->0,
    ) by {
        if x != a {
            assert(node_of(w2, x) == node_of(w, x));
            assert(crate::graph::model::node_listed(w, x, node_of(w, x)->0));
        } else {
            assert forall|i: int| 0 <= i < n.outputs.len() implies #[trigger] starts_at(
                w2,
                n.outputs[i],
                x,
            ) by {
                assert(starts_at(w, n.outputs[i], x));
            }
            assert forall|i: int| 0 <= i < ins.len() implies #[trigger] ends_at(w2, ins[i], x) by {
                if i < n.inputs.len() {
                    assert(ins[i] == n.inputs[i]);
                    assert(ends_at(w, n.inputs[i], x));
                } else {
                    assert(ins[i] == e);
                }
            }
        }
    }
    assert forall|g: u64|
        (#[trigger] graph_of(w2, g)) is Some implies crate::graph::model::graph_listed(
        w2,
        g,
        graph_of(w2, g)->0,
    ) by {
        assert(graph_of(w2, g) == graph_of(w, g));
        assert(crate::graph::model::graph_listed(w, g, graph_of(w, g)->0));
    }
    assert(oa ==> node_of(w2, d.input) is Some && node_of(w2, d.input)->0.outputs.contains(e)) by {
        if oa && d.input != a {
            assert(node_of(w2, d.input) == node_of(w, d.input));
        }
    }
    assert(alive(w2, d.input) && alive(w2, d.output) && alive(w2, d.graph)) by {
        assert(w2[d.input as int].alive == w[d.input as int].alive);
        assert(w2[d.output as int].alive == w[d.output as int].alive);
        assert(w2[d.graph as int].alive == w[d.graph as int].alive);
    }
}

/// Listing `e` among the edges of its graph keeps the adding going.
#[verifier::spinoff_prover]
pub proof fn lemma_add_member(w: Seq<EntityState>, e: u64, d: Edge, oa: bool, ia: bool)
    requires
        wf_adding(w, e, d, oa, ia, false),
    ensures
        wf_adding(add_member(w, d.graph, e), e, d, oa, ia, true),
        only_graph_changes(w, add_member(w, d.graph, e), d.graph),
{
    let g = d.graph;
    let w2 = add_member(w, g, e);
    let es = match graph_of(w, g) {
        Some(es) => es,
        None => Seq::empty(),
    };
    assert(only_graph_changes(w, w2, g));
    lemma_same_edges(w, w2);
    let es2 = if es.contains(e) { es } else { es.push(e) };
    assert(graph_of(w2, g) == Some(es2));
    assert(es.no_duplicates()) by {
        if graph_of(w, g) is Some {
            assert(crate::graph::model::graph_listed(w, g, es));
        }
    }
    if !es.contains(e) {
        lemma_push_unique(es, e);
    }
    assert forall|f: u64| es.contains(f) implies es2.contains(f) by {
        if !es.contains(e) {
            lemma_push_unique(es, e);
        }
    }
    assert forall|f: u64|
        (#[trigger] edge_of(w2, f)) is Some implies (f == e || edge_listed(
        w2,
        f,
        edge_of(w2, f)->0,
    )) by {
        if f != e {
            let df = edge_of(w, f)->0;
            assert(edge_listed(w, f, df));
        }
    }
    assert forall|x: u64| #![trigger w2[x as int]] x < w2.len() && !w2[x as int].alive implies {
        &&& w2[x as int].node is None
        &&& w2[x as int].edge is None
        &&& w2[x as int].graph is None
    } by {
        assert(edge_of(w2, x) == edge_of(w, x));
        assert(node_of(w2, x) == node_of(w, x));
        if x != g {
            assert(graph_of(w2, x) == graph_of(w, x));
        }
    }
    assert forall|x: u64|
        (#[trigger] node_of(w2, x)) is Some implies crate::graph::model::node_listed(
        w2,
        x,
        node_of(w2, x)->0,
    ) by {
        assert(node_of(w2, x) == node_of(w, x));
        assert(crate::graph::model::node_listed(w, x, node_of(w, x)->0));
    }
    assert forall|h: u64|
        (#[trigger] graph_of(w2, h)) is Some implies crate::graph::model::graph_listed(
        w2,
        h,
        graph_of(w2, h)->0,
    ) by {
        if h != g {
            assert(graph_of(w2, h) == graph_of(w, h));
            assert(crate::graph::model::graph_listed(w, h, graph_of(w, h)->0));
        } else {
            assert forall|i: int| 0 <= i < es2.len() implies #[trigger] belongs_to(w2, es2[i], h) by {
                if i < es.len() {
                    assert(es2[i] == es[i]);
                    assert(belongs_to(w, es[i], h));
                } else {
                    assert(es2[i] == e);
                }
            }
        }
    }
    assert(alive(w2, d.input) && alive(w2, d.output) && alive(w2, d.graph)) by {
        assert(w2[d.input as int].alive == w[d.input as int].alive);
        assert(w2[d.output as int].alive == w[d.output as int].alive);
        assert(w2[d.graph as int].alive == w[d.graph as int].alive);
    }
    assert(oa ==> node_of(w2, d.input) is Some && node_of(w2, d.input)->0.outputs.contains(e)) by {
        assert(node_of(w2, d.input) == node_of(w, d.input));
    }
    assert(ia ==> node_of(w2, d.output) is Some && node_of(w2, d.output)->0.inputs.contains(e)) by {
        assert(node_of(w2, d.output) == node_of(w, d.output));
    }
}

/// An edge listed at all three places completes a well formed world.
pub proof fn lemma_finish_adding(w: Seq<EntityState>, e: u64, d: Edge)
    requires
        wf_adding(w, e, d, true, true, true),
    ensures
        wf(w),
{
    assert forall|f: u64| (#[trigger] edge_of(w, f)) is Some implies edge_listed(
        w,
        f,
        edge_of(w, f)->0,
    ) by {}
}

/// Inserting an edge component on a living entity keeps the world well
/// formed; the component stays exactly when no check fails.
#[verifier::spinoff_prover]
pub proof fn lemma_inserting_edge(w: Seq<EntityState>, e: u64, d: Edge)
    requires
        wf(w),
        alive(w, e),
    ensures
        wf(inserting_edge(w, e, d)),
        inserting_edge(w, e, d).len() == w.len(),
        edge_of(inserting_edge(w, e, d), e) == (if edge_fault(w, e, d) is None {
            Some(d)
        } else {
            None
        }),
        forall|f: u64| f != e ==> #[trigger] edge_of(inserting_edge(w, e, d), f) == edge_of(w, f),
        forall|y: u64|
            #![trigger inserting_edge(w, e, d)[y as int]]
            y < w.len() ==> inserting_edge(w, e, d)[y as int].alive == w[y as int].alive
                && inserting_edge(w, e, d)[y as int].name == w[y as int].name && inserting_edge(
                w,
                e,
                d,
            )[y as int].markers == w[y as int].markers,
{
    let w1 = removing_edge(w, e);
    if edge_of(w, e) is Some {
        lemma_detach(w, e);
    }
    assert(wf(w1) && edge_of(w1, e) is None && w1.len() == w.len());
    assert(forall|f: u64| f != e ==> #[trigger] edge_of(w1, f) == edge_of(w, f));
    assert(forall|y: u64|
        #![trigger w1[y as int]]
        y < w.len() ==> w1[y as int].alive == w[y as int].alive && w1[y as int].name
            == w[y as int].name && w1[y as int].markers == w[y as int].markers);
    assert(edge_fault(w1, e, d) == edge_fault(w, e, d)) by {
        if d.input != e && d.output != e && d.graph != e {
            assert(edge_of(w1, d.input) == edge_of(w, d.input));
            assert(edge_of(w1, d.output) == edge_of(w, d.output));
            assert(edge_of(w1, d.graph) == edge_of(w, d.graph));
            if d.input < w.len() {
                assert(w1[d.input as int].alive == w[d.input as int].alive);
            }
            if d.output < w.len() {
                assert(w1[d.output as int].alive == w[d.output as int].alive);
            }
            if d.graph < w.len() {
                assert(w1[d.graph as int].alive == w[d.graph as int].alive);
            }
        }
    }
    let w2 = with_edge(w1, e, Some(d));
    let r = inserting_edge(w, e, d);
    if edge_fault(w, e, d) is None {
        lemma_start_adding(w1, e, d);
        let w3 = add_output(w2, d.input, e);
        lemma_add_output(w2, e, d, false, false);
        let w4 = add_input(w3, d.output, e);
        lemma_add_input(w3, e, d, true, false);
        let w5 = add_member(w4, d.graph, e);
        lemma_add_member(w4, e, d, true, true);
        lemma_finish_adding(w5, e, d);
        assert(r == w5);
        assert forall|f: u64| f != e implies #[trigger] edge_of(r, f) == edge_of(w, f) by {
            assert(edge_of(w2, f) == edge_of(w1, f));
            assert(edge_of(w3, f) == edge_of(w2, f));
            assert(edge_of(w4, f) == edge_of(w3, f));
        }
        assert forall|y: u64|
            #![trigger r[y as int]]
            y < w.len() implies r[y as int].alive == w[y as int].alive && r[y as int].name
            == w[y as int].name && r[y as int].markers == w[y as int].markers by {
            assert(w2[y as int].alive == w1[y as int].alive);
            assert(w3[y as int].alive == w2[y as int].alive);
            assert(w4[y as int].alive == w3[y as int].alive);
        }
        assert(edge_of(r, e) == Some(d)) by {
            assert(edge_of(w3, e) == edge_of(w2, e));
            assert(edge_of(w4, e) == edge_of(w3, e));
        }
    } else {
        lemma_unlisted(w1, e);
        lemma_wf_except(w1, e);
        assert(w1[e as int].alive == w[e as int].alive);
        lemma_set_edge(w1, e, Some(d), None, None, None);
        lemma_detach_from(w2, e, d, None, None, None);
        assert forall|f: u64| f != e implies #[trigger] edge_of(r, f) == edge_of(w, f) by {
            assert(edge_of(w2, f) == edge_of(w1, f));
        }
        assert forall|y: u64|
            #![trigger r[y as int]]
            y < w.len() implies r[y as int].alive == w[y as int].alive && r[y as int].name
            == w[y as int].name && r[y as int].markers == w[y as int].markers by {
            assert(w2[y as int].alive == w1[y as int].alive);
        }
    }
}

/// Linking an edge to the ends of `d` keeps the world well formed; the
/// edge carries `d` exactly when every end is valid, and no other entity's
/// edge component, life or labels change.
#[verifier::spinoff_prover]
pub proof fn lemma_linking(w: Seq<EntityState>, e: u64, d: Edge)
    requires
        wf(w),
        alive(w, e),
    ensures
        wf(linking(w, e, d)),
        edges_kept_but(w, linking(w, e, d), e),
        same_labels(w, linking(w, e, d)),
        edge_of(linking(w, e, d), e) == (if ends_valid(w, e, d) {
            Some(d)
        } else {
            None
        }),
{
    let w1 = removing_edge(w, e);
    if edge_of(w, e) is Some {
        lemma_detach(w, e);
    }
    lemma_removing_edge_alive(w, e);
    assert(wf(w1) && edge_of(w1, e) is None && w1.len() == w.len());
    let r = linking(w, e, d);
    if ends_valid(w, e, d) {
        assert(ends_valid(w1, e, d)) by {
            assert(w1[d.input as int].alive == w[d.input as int].alive);
            assert(w1[d.output as int].alive == w[d.output as int].alive);
            assert(w1[d.graph as int].alive == w[d.graph as int].alive);
        }
        assert(alive(w1, e)) by {
            assert(w1[e as int].alive == w[e as int].alive);
        }
        let w2 = with_edge(w1, e, Some(d));
        lemma_start_adding(w1, e, d);
        let w3 = add_output(w2, d.input, e);
        lemma_add_output(w2, e, d, false, false);
        let w4 = add_input(w3, d.output, e);
        lemma_add_input(w3, e, d, true, false);
        let w5 = add_member(w4, d.graph, e);
        lemma_add_member(w4, e, d, true, true);
        lemma_finish_adding(w5, e, d);
        assert(r == w5);
        lemma_attach_alive(w2, e, d);
        assert(same_alive(w1, w2) && same_labels(w1, w2)) by {
            assert forall|i: int| 0 <= i < w1.len() implies (#[trigger] w2[i]).alive == w1[i].alive
                && w2[i].name == w1[i].name && w2[i].markers == w1[i].markers by {}
        }
        assert forall|f: u64| f != e implies #[trigger] edge_of(r, f) == edge_of(w, f) by {
            assert(edge_of(w2, f) == edge_of(w1, f));
        }
        assert(edge_of(r, e) == Some(d)) by {
            assert(edge_of(w2, e) == Some(d));
        }
    } else {
        assert(r == w1);
    }
}

/// Spawning an entity keeps the world well formed.
pub proof fn lemma_spawn(w: Seq<EntityState>)
    requires
        wf(w),
    ensures
        wf(w.push(fresh_entity())),
{
    let w2 = w.push(fresh_entity());
    assert forall|y: u64| #[trigger] edge_of(w2, y) == edge_of(w, y) by {}
    assert forall|y: u64| #[trigger] node_of(w2, y) == node_of(w, y) by {}
    assert forall|y: u64| #[trigger] graph_of(w2, y) == graph_of(w, y) by {}
    lemma_same_edges(w, w2);
    assert forall|f: u64| (#[trigger] edge_of(w2, f)) is Some implies edge_listed(
        w2,
        f,
        edge_of(w2, f)->0,
    ) by {
        assert(edge_listed(w, f, edge_of(w, f)->0));
    }
    assert forall|x: u64| (#[trigger] node_of(w2, x)) is Some implies crate::graph::model::node_listed(
        w2,
        x,
        node_of(w2, x)->0,
    ) by {
        assert(crate::graph::model::node_listed(w, x, node_of(w, x)->0));
    }
    assert forall|g: u64| (#[trigger] graph_of(w2, g)) is Some implies crate::graph::model::graph_listed(
        w2,
        g,
        graph_of(w2, g)->0,
    ) by {
        assert(crate::graph::model::graph_listed(w, g, graph_of(w, g)->0));
    }
    assert forall|x: u64| #![trigger w2[x as int]] x < w2.len() && !w2[x as int].alive implies {
        &&& w2[x as int].node is None
        &&& w2[x as int].edge is None
        &&& w2[x as int].graph is None
    } by {
        if x < w.len() {
            assert(w2[x as int] == w[x as int]);
        }
    }
}

/// Taking off the edge components of a list of entities keeps the world
/// well formed; exactly the listed edges are gone.
#[verifier::spinoff_prover]
pub proof fn lemma_removing_edges(w: Seq<EntityState>, es: Seq<u64>)
    requires
        wf(w),
    ensures
        wf(removing_edges(w, es)),
        removing_edges(w, es).len() == w.len(),
        forall|f: u64|
            #[trigger] edge_of(removing_edges(w, es), f) == if es.contains(f) {
                None
            } else {
                edge_of(w, f)
            },
        forall|y: u64|
            #![trigger removing_edges(w, es)[y as int]]
            y < w.len() ==> removing_edges(w, es)[y as int].alive == w[y as int].alive
                && removing_edges(w, es)[y as int].name == w[y as int].name && removing_edges(
                w,
                es,
            )[y as int].markers == w[y as int].markers,
    decreases es.len(),
{
    if es.len() > 0 {
        let t = es.drop_last();
        let v = es.last();
        lemma_removing_edges(w, t);
        let w1 = removing_edges(w, t);
        let r = removing_edges(w, es);
        assert(r == removing_edge(w1, v));
        if edge_of(w1, v) is Some {
            lemma_detach(w1, v);
        }
        assert forall|f: u64| #[trigger] edge_of(r, f) == if es.contains(f) {
            None
        } else {
            edge_of(w, f)
        } by {
            assert(es.contains(f) <==> (t.contains(f) || f == v)) by {
                if es.contains(f) && f != v {
                    let j = choose|j: int| 0 <= j < es.len() && es[j] == f;
                    assert(t[j] == f);
                }
                if t.contains(f) {
                    let j = choose|j: int| 0 <= j < t.len() && t[j] == f;
                    assert(es[j] == f);
                }
                assert(es[es.len() - 1] == v);
            }
            assert(edge_of(w1, f) == if t.contains(f) {
                None
            } else {
                edge_of(w, f)
            });
        }
        assert forall|y: u64|
            #![trigger r[y as int]]
            y < w.len() implies r[y as int].alive == w[y as int].alive && r[y as int].name
            == w[y as int].name && r[y as int].markers == w[y as int].markers by {
            assert(w1[y as int].alive == w[y as int].alive);
        }
    }
}

/// Removing a node component that lists no edge keeps the world well formed.
#[verifier::spinoff_prover]
pub proof fn lemma_clear_empty_node(w: Seq<EntityState>, x: u64)
    requires
        wf(w),
        node_of(w, x) is Some ==> node_of(w, x)->0.inputs.len() == 0 && node_of(w, x)->0.outputs.len()
            == 0,
    ensures
        wf(with_node(w, x, None)),
{
    let w2 = with_node(w, x, None);
    assert forall|y: u64| #[trigger] edge_of(w2, y) == edge_of(w, y) by {}
    assert forall|y: u64| #[trigger] graph_of(w2, y) == graph_of(w, y) by {}
    assert forall|y: u64| y != x implies #[trigger] node_of(w2, y) == node_of(w, y) by {}
    lemma_same_edges(w, w2);
    assert forall|f: u64| (#[trigger] edge_of(w2, f)) is Some implies edge_listed(
        w2,
        f,
        edge_of(w2, f)->0,
    ) by {
        let d = edge_of(w, f)->0;
        assert(edge_listed(w, f, d));
        if d.input == x {
            assert(node_of(w, x)->0.outputs.contains(f));
        }
        if d.output == x {
            assert(node_of(w, x)->0.inputs.contains(f));
        }
    }
    assert forall|y: u64| (#[trigger] node_of(w2, y)) is Some implies crate::graph::model::node_listed(
        w2,
        y,
        node_of(w2, y)->0,
    ) by {
        assert(crate::graph::model::node_listed(w, y, node_of(w, y)->0));
    }
    assert forall|g: u64| (#[trigger] graph_of(w2, g)) is Some implies crate::graph::model::graph_listed(
        w2,
        g,
        graph_of(w2, g)->0,
    ) by {
        assert(crate::graph::model::graph_listed(w, g, graph_of(w, g)->0));
    }
    assert forall|y: u64| #![trigger w2[y as int]] y < w2.len() && !w2[y as int].alive implies {
        &&& w2[y as int].node is None
        &&& w2[y as int].edge is None
        &&& w2[y as int].graph is None
    } by {
        assert(w2[y as int].alive == w[y as int].alive);
        assert(edge_of(w2, y) == edge_of(w, y));
        assert(graph_of(w2, y) == graph_of(w, y));
        if y != x {
            assert(node_of(w2, y) == node_of(w, y));
        }
    }
}

/// Removing a graph component that lists no edge keeps the world well formed.
#[verifier::spinoff_prover]
pub proof fn lemma_clear_empty_graph(w: Seq<EntityState>, g: u64)
    requires
        wf(w),
        graph_of(w, g) is Some ==> graph_of(w, g)->0.len() == 0,
    ensures
        wf(with_graph(w, g, None)),
{
    let w2 = with_graph(w, g, None);
    assert forall|y: u64| #[trigger] edge_of(w2, y) == edge_of(w, y) by {}
    assert forall|y: u64| #[trigger] node_of(w2, y) == node_of(w, y) by {}
    assert forall|y: u64| y != g implies #[trigger] graph_of(w2, y) == graph_of(w, y) by {}
    lemma_same_edges(w, w2);
    assert forall|f: u64| (#[trigger] edge_of(w2, f)) is Some implies edge_listed(
        w2,
        f,
        edge_of(w2, f)->0,
    ) by {
        let d = edge_of(w, f)->0;
        assert(edge_listed(w, f, d));
        if d.graph == g {
            assert(graph_of(w, g)->0.contains(f));
        }
    }
    assert forall|y: u64| (#[trigger] node_of(w2, y)) is Some implies crate::graph::model::node_listed(
        w2,
        y,
        node_of(w2, y)->0,
    ) by {
        assert(crate::graph::model::node_listed(w, y, node_of(w, y)->0));
    }
    assert forall|h: u64| (#[trigger] graph_of(w2, h)) is Some implies crate::graph::model::graph_listed(
        w2,
        h,
        graph_of(w2, h)->0,
    ) by {
        assert(crate::graph::model::graph_listed(w, h, graph_of(w, h)->0));
    }
    assert forall|y: u64| #![trigger w2[y as int]] y < w2.len() && !w2[y as int].alive implies {
        &&& w2[y as int].node is None
        &&& w2[y as int].edge is None
        &&& w2[y as int].graph is None
    } by {
        assert(w2[y as int].alive == w[y as int].alive);
        assert(edge_of(w2, y) == edge_of(w, y));
        assert(node_of(w2, y) == node_of(w, y));
        if y != g {
            assert(graph_of(w2, y) == graph_of(w, y));
        }
    }
}

/// Removing a node component keeps the world well formed; the node's own
/// lists were emptied by the edges leaving.
#[verifier::spinoff_prover]
pub proof fn lemma_removing_node(w: Seq<EntityState>, x: u64)
    requires
        wf(w),
    ensures
        wf(removing_node(w, x)),
        removing_node(w, x).len() == w.len(),
        node_of(removing_node(w, x), x) is None,
        forall|y: u64|
            #![trigger removing_node(w, x)[y as int]]
            y < w.len() ==> removing_node(w, x)[y as int].alive == w[y as int].alive
                && removing_node(w, x)[y as int].name == w[y as int].name && removing_node(
                w,
                x,
            )[y as int].markers == w[y as int].markers,
{
    if node_of(w, x) is Some {
        let n = node_of(w, x)->0;
        let cs = n.inputs + n.outputs;
        lemma_removing_edges(w, cs);
        let r = removing_edges(w, cs);
        assert(node_of(r, x) is Some ==> node_of(r, x)->0.inputs.len() == 0 && node_of(r, x)->0.outputs.len() == 0) by {
            if node_of(r, x) is Some {
                let m = node_of(r, x)->0;
                assert(crate::graph::model::node_listed(r, x, m));
                if m.inputs.len() > 0 {
                    let y = m.inputs[0];
                    assert(ends_at(r, y, x));
                    assert(edge_of(r, y) is Some);
                    assert(!cs.contains(y));
                    assert(edge_of(w, y) == edge_of(r, y));
                    assert(edge_listed(w, y, edge_of(w, y)->0));
                    let j = choose|j: int| 0 <= j < n.inputs.len() && n.inputs[j] == y;
                    assert(cs[j] == y);
                }
                if m.outputs.len() > 0 {
                    let y = m.outputs[0];
                    assert(starts_at(r, y, x));
                    assert(edge_of(r, y) is Some);
                    assert(!cs.contains(y));
                    assert(edge_of(w, y) == edge_of(r, y));
                    assert(edge_listed(w, y, edge_of(w, y)->0));
                    let j = choose|j: int| 0 <= j < n.outputs.len() && n.outputs[j] == y;
                    assert(cs[n.inputs.len() + j] == y);
                }
            }
        }
        lemma_clear_empty_node(r, x);
        let r2 = removing_node(w, x);
        assert forall|y: u64|
            #![trigger r2[y as int]]
            y < w.len() implies r2[y as int].alive == w[y as int].alive && r2[y as int].name
            == w[y as int].name && r2[y as int].markers == w[y as int].markers by {
            assert(r[y as int].alive == w[y as int].alive);
        }
    }
}

/// Removing a graph component keeps the world well formed; the graph's own
/// list was emptied by the edges leaving.
#[verifier::spinoff_prover]
pub proof fn lemma_removing_graph(w: Seq<EntityState>, g: u64)
    requires
        wf(w),
    ensures
        wf(removing_graph(w, g)),
        removing_graph(w, g).len() == w.len(),
        graph_of(removing_graph(w, g), g) is None,
        forall|y: u64|
            #![trigger removing_graph(w, g)[y as int]]
            y < w.len() ==> removing_graph(w, g)[y as int].alive == w[y as int].alive
                && removing_graph(w, g)[y as int].name == w[y as int].name && removing_graph(
                w,
                g,
            )[y as int].markers == w[y as int].markers,
{
    if graph_of(w, g) is Some {
        let es = graph_of(w, g)->0;
        lemma_removing_edges(w, es);
        let r = removing_edges(w, es);
        assert(graph_of(r, g) is Some ==> graph_of(r, g)->0.len() == 0) by {
            if graph_of(r, g) is Some {
                let m = graph_of(r, g)->0;
                assert(crate::graph::model::graph_listed(r, g, m));
                if m.len() > 0 {
                    let y = m[0];
                    assert(belongs_to(r, y, g));
                    assert(edge_of(r, y) is Some);
                    assert(!es.contains(y));
                    assert(edge_of(w, y) == edge_of(r, y));
                    assert(edge_listed(w, y, edge_of(w, y)->0));
                }
            }
        }
        lemma_clear_empty_graph(r, g);
        let r2 = removing_graph(w, g);
        assert forall|y: u64|
            #![trigger r2[y as int]]
            y < w.len() implies r2[y as int].alive == w[y as int].alive && r2[y as int].name
            == w[y as int].name && r2[y as int].markers == w[y as int].markers by {
            assert(r[y as int].alive == w[y as int].alive);
        }
    }
}

/// Inserting an empty node component on a living entity keeps the world
/// well formed.
#[verifier::spinoff_prover]
pub proof fn lemma_inserting_node(w: Seq<EntityState>, x: u64)
    requires
        wf(w),
        alive(w, x),
    ensures
        wf(inserting_node(w, x)),
        inserting_node(w, x).len() == w.len(),
        forall|y: u64|
            #![trigger inserting_node(w, x)[y as int]]
            y < w.len() ==> inserting_node(w, x)[y as int].alive == w[y as int].alive
                && inserting_node(w, x)[y as int].name == w[y as int].name && inserting_node(
                w,
                x,
            )[y as int].markers == w[y as int].markers,
{
    match node_of(w, x) {
        Some(n) => {
            if !(n.inputs.len() == 0 && n.outputs.len() == 0) {
                lemma_removing_node(w, x);
            }
        },
        None => {
            let w2 = with_node(w, x, Some(empty_node()));
            assert forall|y: u64| #[trigger] edge_of(w2, y) == edge_of(w, y) by {}
            assert forall|y: u64| #[trigger] graph_of(w2, y) == graph_of(w, y) by {}
            assert forall|y: u64| y != x implies #[trigger] node_of(w2, y) == node_of(w, y) by {}
            lemma_same_edges(w, w2);
            assert forall|f: u64| (#[trigger] edge_of(w2, f)) is Some implies edge_listed(
                w2,
                f,
                edge_of(w2, f)->0,
            ) by {
                let d = edge_of(w, f)->0;
                assert(edge_listed(w, f, d));
            }
            assert forall|y: u64|
                (#[trigger] node_of(w2, y)) is Some implies crate::graph::model::node_listed(
                w2,
                y,
                node_of(w2, y)->0,
            ) by {
                if y != x {
                    assert(crate::graph::model::node_listed(w, y, node_of(w, y)->0));
                }
            }
            assert forall|g: u64|
                (#[trigger] graph_of(w2, g)) is Some implies crate::graph::model::graph_listed(
                w2,
                g,
                graph_of(w2, g)->0,
            ) by {
                assert(crate::graph::model::graph_listed(w, g, graph_of(w, g)->0));
            }
            assert forall|y: u64| #![trigger w2[y as int]] y < w2.len() && !w2[y as int].alive implies {
                &&& w2[y as int].node is None
                &&& w2[y as int].edge is None
                &&& w2[y as int].graph is None
            } by {
                assert(w2[y as int].alive == w[y as int].alive);
                assert(edge_of(w2, y) == edge_of(w, y));
                assert(graph_of(w2, y) == graph_of(w, y));
                if y != x {
                    assert(node_of(w2, y) == node_of(w, y));
                }
            }
        },
    }
}

/// Inserting an empty graph component on a living entity keeps the world
/// well formed.
#[verifier::spinoff_prover]
pub proof fn lemma_inserting_graph(w: Seq<EntityState>, g: u64)
    requires
        wf(w),
        alive(w, g),
    ensures
        wf(inserting_graph(w, g)),
        inserting_graph(w, g).len() == w.len(),
        forall|y: u64|
            #![trigger inserting_graph(w, g)[y as int]]
            y < w.len() ==> inserting_graph(w, g)[y as int].alive == w[y as int].alive
                && inserting_graph(w, g)[y as int].name == w[y as int].name && inserting_graph(
                w,
                g,
            )[y as int].markers == w[y as int].markers,
{
    match graph_of(w, g) {
        Some(es) => {
            if es.len() != 0 {
                lemma_removing_graph(w, g);
            }
        },
        None => {
            let w2 = with_graph(w, g, Some(Seq::empty()));
            assert forall|y: u64| #[trigger] edge_of(w2, y) == edge_of(w, y) by {}
            assert forall|y: u64| #[trigger] node_of(w2, y) == node_of(w, y) by {}
            assert forall|y: u64| y != g implies #[trigger] graph_of(w2, y) == graph_of(w, y) by {}
            lemma_same_edges(w, w2);
            assert forall|f: u64| (#[trigger] edge_of(w2, f)) is Some implies edge_listed(
                w2,
                f,
                edge_of(w2, f)->0,
            ) by {
                let d = edge_of(w, f)->0;
                assert(edge_listed(w, f, d));
            }
            assert forall|y: u64|
                (#[trigger] node_of(w2, y)) is Some implies crate::graph::model::node_listed(
                w2,
                y,
                node_of(w2, y)->0,
            ) by {
                assert(crate::graph::model::node_listed(w, y, node_of(w, y)->0));
            }
            assert forall|h: u64|
                (#[trigger] graph_of(w2, h)) is Some implies crate::graph::model::graph_listed(
                w2,
                h,
                graph_of(w2, h)->0,
            ) by {
                if h != g {
                    assert(crate::graph::model::graph_listed(w, h, graph_of(w, h)->0));
                }
            }
            assert forall|y: u64| #![trigger w2[y as int]] y < w2.len() && !w2[y as int].alive implies {
                &&& w2[y as int].node is None
                &&& w2[y as int].edge is None
                &&& w2[y as int].graph is None
            } by {
                assert(w2[y as int].alive == w[y as int].alive);
                assert(edge_of(w2, y) == edge_of(w, y));
                assert(node_of(w2, y) == node_of(w, y));
                if y != g {
                    assert(graph_of(w2, y) == graph_of(w, y));
                }
            }
        },
    }
}

/// Names and markers play no part in the world being well formed.
#[verifier::spinoff_prover]
pub proof fn lemma_relabel(w: Seq<EntityState>, w2: Seq<EntityState>)
    requires
        wf(w),
        w2.len() == w.len(),
        forall|y: int|
            0 <= y < w.len() ==> (#[trigger] w2[y]).alive == w[y].alive && w2[y].node == w[y].node
                && w2[y].edge == w[y].edge && w2[y].graph == w[y].graph,
    ensures
        wf(w2),
{
    assert forall|y: u64| #[trigger] edge_of(w2, y) == edge_of(w, y) by {
        if y < w.len() {
            assert(w2[y as int].edge == w[y as int].edge);
        }
    }
    assert forall|y: u64| #[trigger] node_of(w2, y) == node_of(w, y) by {
        if y < w.len() {
            assert(w2[y as int].node == w[y as int].node);
        }
    }
    assert forall|y: u64| #[trigger] graph_of(w2, y) == graph_of(w, y) by {
        if y < w.len() {
            assert(w2[y as int].graph == w[y as int].graph);
        }
    }
    lemma_same_edges(w, w2);
    assert forall|f: u64| (#[trigger] edge_of(w2, f)) is Some implies edge_listed(
        w2,
        f,
        edge_of(w2, f)->0,
    ) by {
        assert(edge_listed(w, f, edge_of(w, f)->0));
    }
    assert forall|x: u64| (#[trigger] node_of(w2, x)) is Some implies crate::graph::model::node_listed(
        w2,
        x,
        node_of(w2, x)->0,
    ) by {
        assert(crate::graph::model::node_listed(w, x, node_of(w, x)->0));
    }
    assert forall|g: u64| (#[trigger] graph_of(w2, g)) is Some implies crate::graph::model::graph_listed(
        w2,
        g,
        graph_of(w2, g)->0,
    ) by {
        assert(crate::graph::model::graph_listed(w, g, graph_of(w, g)->0));
    }
    assert forall|x: u64| #![trigger w2[x as int]] x < w2.len() && !w2[x as int].alive implies {
        &&& w2[x as int].node is None
        &&& w2[x as int].edge is None
        &&& w2[x as int].graph is None
    } by {
        assert(w2[x as int].alive == w[x as int].alive);
    }
}

/// Taking an edge component off `e`, with its lists, leaves every entity
/// alive or dead as it was and every other edge component as it was.
pub proof fn lemma_detach_alive(w: Seq<EntityState>, e: u64, d: Edge)
    ensures
        edges_kept_but(w, detach(w, e, d), e),
        same_labels(w, detach(w, e, d)),
{
    let wa = with_edge(w, e, None);
    let wb = drop_output(wa, d.input, e);
    let wc = drop_input(wb, d.output, e);
    let wd = drop_member(wc, d.graph, e);
    assert forall|i: int| 0 <= i < w.len() implies (#[trigger] detach(w, e, d)[i]).alive
        == w[i].alive && detach(w, e, d)[i].name == w[i].name && detach(w, e, d)[i].markers
        == w[i].markers by {
        lemma_list_ops_at(wa, d.input, e, i);
        lemma_list_ops_at(wb, d.output, e, i);
        lemma_member_ops_at(wc, d.graph, e, i);
    }
    assert forall|y: u64| y != e implies #[trigger] edge_of(detach(w, e, d), y) == edge_of(
        w,
        y,
    ) by {
        assert(edge_of(wa, y) == edge_of(w, y));
        assert(edge_of(wb, y) == edge_of(wa, y));
        assert(edge_of(wc, y) == edge_of(wb, y));
        assert(edge_of(wd, y) == edge_of(wc, y));
    }
}

/// Listing an edge at its nodes and graph leaves every entity alive or dead
/// as it was and every edge component as it was.
pub proof fn lemma_attach_alive(w: Seq<EntityState>, e: u64, d: Edge)
    ensures
        same_alive(w, attach(w, e, d)),
        same_labels(w, attach(w, e, d)),
        forall|y: u64| #[trigger] edge_of(attach(w, e, d), y) == edge_of(w, y),
{
    let wa = add_output(w, d.input, e);
    let wb = add_input(wa, d.output, e);
    let wc = add_member(wb, d.graph, e);
    assert forall|i: int| 0 <= i < w.len() implies (#[trigger] attach(w, e, d)[i]).alive
        == w[i].alive && attach(w, e, d)[i].name == w[i].name && attach(w, e, d)[i].markers
        == w[i].markers by {
        lemma_list_ops_at(w, d.input, e, i);
        lemma_list_ops_at(wa, d.output, e, i);
        lemma_member_ops_at(wb, d.graph, e, i);
    }
    assert forall|y: u64| #[trigger] edge_of(attach(w, e, d), y) == edge_of(w, y) by {
        assert(edge_of(wa, y) == edge_of(w, y));
        assert(edge_of(wb, y) == edge_of(wa, y));
        assert(edge_of(wc, y) == edge_of(wb, y));
    }
}

/// Taking off the edge component of `e` leaves every entity alive or dead
/// as it was and every other edge component as it was.
pub proof fn lemma_removing_edge_alive(w: Seq<EntityState>, e: u64)
    ensures
        edges_kept_but(w, removing_edge(w, e), e),
        same_labels(w, removing_edge(w, e)),
        edge_of(removing_edge(w, e), e) is None,
{
    match edge_of(w, e) {
        Some(d) => {
            lemma_detach_alive(w, e, d);
            let wa = with_edge(w, e, None);
            let wb = drop_output(wa, d.input, e);
            let wc = drop_input(wb, d.output, e);
            if e < w.len() {
                lemma_list_ops_at(wa, d.input, e, e as int);
                lemma_list_ops_at(wb, d.output, e, e as int);
                lemma_member_ops_at(wc, d.graph, e, e as int);
            }
        },
        None => {},
    }
}

/// Inserting an edge component on `e` leaves every entity alive or dead as
/// it was and every other edge component as it was.
pub proof fn lemma_inserting_edge_alive(w: Seq<EntityState>, e: u64, d: Edge)
    ensures
        edges_kept_but(w, inserting_edge(w, e, d), e),
        same_labels(w, inserting_edge(w, e, d)),
{
    let w1 = removing_edge(w, e);
    lemma_removing_edge_alive(w, e);
    let w2 = with_edge(w1, e, Some(d));
    assert(edges_kept_but(w1, w2, e));
    assert(same_labels(w1, w2));
    if edge_fault(w, e, d) is None {
        lemma_attach_alive(w2, e, d);
    } else {
        lemma_detach_alive(w2, e, d);
    }
}

/// Cloning or moving names and markers leaves every entity alive or dead as
/// it was and every edge component as it was; cloning changes nothing but
/// the entity cloned onto.
pub proof fn lemma_labels_alive(w: Seq<EntityState>, src: u64, dst: u64)
    requires
        src < w.len(),
    ensures
        same_alive(w, cloning_labels(w, src, dst)),
        same_alive(w, moving_labels(w, src, dst)),
        forall|y: u64| #[trigger] edge_of(cloning_labels(w, src, dst), y) == edge_of(w, y),
        forall|y: u64| #[trigger] edge_of(moving_labels(w, src, dst), y) == edge_of(w, y),
        forall|i: int|
            0 <= i < w.len() && i != dst ==> #[trigger] cloning_labels(w, src, dst)[i] == w[i],
{
}

/// Cloning or moving names and markers keeps the world well formed.
pub proof fn lemma_labels_wf(w: Seq<EntityState>, src: u64, dst: u64)
    requires
        wf(w),
        src < w.len(),
    ensures
        wf(cloning_labels(w, src, dst)),
        wf(moving_labels(w, src, dst)),
{
    lemma_relabel(w, cloning_labels(w, src, dst));
    lemma_relabel(w, moving_labels(w, src, dst));
}

/// Removing a value just pushed onto a list that lacked it gives the list
/// back.
#[verifier::spinoff_prover]
proof fn lemma_without_push(s: Seq<u64>, v: u64)
    requires
        !s.contains(v),
    ensures
        without(s.push(v), v) == s,
{
    reveal_with_fuel(Seq::filter, 1);
    assert(s.push(v).drop_last() =~= s);
    lemma_without(s, v);
}

/// A node or graph list that lists some edge.
pub open spec fn lists_some(n: Option<NodeView>) -> bool {
    match n {
        Some(n) => n.inputs.len() > 0 || n.outputs.len() > 0,
        None => true,
    }
}

/// The node of `x` after edge `e` is added to its outputs.
spec fn node_add_output(n: Option<NodeView>, e: u64) -> Option<NodeView> {
    let m = match n {
        Some(m) => m,
        None => empty_node(),
    };
    if m.outputs.contains(e) {
        Some(m)
    } else {
        Some(NodeView { inputs: m.inputs, outputs: m.outputs.push(e) })
    }
}

/// The node of `x` after edge `e` is added to its inputs.
spec fn node_add_input(n: Option<NodeView>, e: u64) -> Option<NodeView> {
    let m = match n {
        Some(m) => m,
        None => empty_node(),
    };
    if m.inputs.contains(e) {
        Some(m)
    } else {
        Some(NodeView { inputs: m.inputs.push(e), outputs: m.outputs })
    }
}

/// The node of `x` after edge `e` leaves its outputs.
spec fn node_drop_output(n: Option<NodeView>, e: u64) -> Option<NodeView> {
    match n {
        Some(m) => {
            let outputs = without(m.outputs, e);
            if m.inputs.len() == 0 && outputs.len() == 0 {
                None
            } else {
                Some(NodeView { inputs: m.inputs, outputs })
            }
        },
        None => None,
    }
}

/// The node of `x` after edge `e` leaves its inputs.
spec fn node_drop_input(n: Option<NodeView>, e: u64) -> Option<NodeView> {
    match n {
        Some(m) => {
            let inputs = without(m.inputs, e);
            if inputs.len() == 0 && m.outputs.len() == 0 {
                None
            } else {
                Some(NodeView { inputs, outputs: m.outputs })
            }
        },
        None => None,
    }
}

/// What each list operation does to one entity.
proof fn lemma_list_ops_at(w: Seq<EntityState>, x: u64, e: u64, y: int)
    requires
        0 <= y < w.len(),
    ensures
        add_output(w, x, e)[y] == (if y == x { EntityState { node: node_add_output(w[y].node, e), ..w[y] } } else { w[y] }),
        add_input(w, x, e)[y] == (if y == x { EntityState { node: node_add_input(w[y].node, e), ..w[y] } } else { w[y] }),
        drop_output(w, x, e)[y] == (if y == x { EntityState { node: node_drop_output(w[y].node, e), ..w[y] } } else { w[y] }),
        drop_input(w, x, e)[y] == (if y == x { EntityState { node: node_drop_input(w[y].node, e), ..w[y] } } else { w[y] }),
        add_output(w, x, e).len() == w.len(),
        add_input(w, x, e).len() == w.len(),
        drop_output(w, x, e).len() == w.len(),
        drop_input(w, x, e).len() == w.len(),
{
}

/// What adding and dropping a graph member does to one entity.
proof fn lemma_member_ops_at(w: Seq<EntityState>, g: u64, e: u64, y: int)
    requires
        0 <= y < w.len(),
    ensures
        add_member(w, g, e)[y].node == w[y].node,
        drop_member(w, g, e)[y].node == w[y].node,
        add_member(w, g, e)[y].edge == w[y].edge,
        drop_member(w, g, e)[y].edge == w[y].edge,
        add_member(w, g, e)[y].alive == w[y].alive,
        drop_member(w, g, e)[y].alive == w[y].alive,
        add_member(w, g, e)[y].name == w[y].name,
        drop_member(w, g, e)[y].name == w[y].name,
        add_member(w, g, e)[y].markers == w[y].markers,
        drop_member(w, g, e)[y].markers == w[y].markers,
        y != g ==> add_member(w, g, e)[y] == w[y],
        y != g ==> drop_member(w, g, e)[y] == w[y],
        add_member(w, g, e).len() == w.len(),
        drop_member(w, g, e).len() == w.len(),
{
}

/// Adding a new edge to a node's lists and dropping it again gives the node
/// back, if the node lists some edge or is absent.
proof fn lemma_node_round_trip(n: Option<NodeView>, e: u64, as_input: bool, as_output: bool)
    requires
        lists_some(n),
        n is Some ==> !n->0.inputs.contains(e) && !n->0.outputs.contains(e),
        as_input || as_output,
    ensures
        ({
            let a = if as_output { node_add_output(n, e) } else { n };
            let b = if as_input { node_add_input(a, e) } else { a };
            let c = if as_output { node_drop_output(b, e) } else { b };
            let r = if as_input { node_drop_input(c, e) } else { c };
            r == n
        }),
{
    let m = match n {
        Some(m) => m,
        None => empty_node(),
    };
    lemma_without_push(m.inputs, e);
    lemma_without_push(m.outputs, e);
    lemma_without(m.inputs, e);
    lemma_without(m.outputs, e);
}

/// The world after a valid edge component `d` is inserted on `e` and taken
/// off again, entity by entity.
#[verifier::spinoff_prover]
proof fn lemma_insert_then_remove_at(w: Seq<EntityState>, e: u64, d: Edge, x: int)
    requires
        e < w.len(),
        d.input < w.len(),
        d.output < w.len(),
        d.graph < w.len(),
        d.input != e,
        d.output != e,
        d.graph != e,
        edge_of(w, e) is None,
        edge_fault(w, e, d) is None,
        lists_some(node_of(w, d.input)),
        lists_some(node_of(w, d.output)),
        graph_of(w, d.graph) is Some ==> graph_of(w, d.graph)->0.len() > 0,
        node_of(w, d.input) is Some ==> !node_of(w, d.input)->0.inputs.contains(e)
            && !node_of(w, d.input)->0.outputs.contains(e),
        node_of(w, d.output) is Some ==> !node_of(w, d.output)->0.inputs.contains(e)
            && !node_of(w, d.output)->0.outputs.contains(e),
        graph_of(w, d.graph) is Some ==> !graph_of(w, d.graph)->0.contains(e),
        0 <= x < w.len(),
    ensures
        removing_edge(inserting_edge(w, e, d), e)[x] == w[x],
{
    let i = d.input;
    let o = d.output;
    let g = d.graph;
    let w1 = with_edge(w, e, Some(d));
    let wa = add_output(w1, i, e);
    let wb = add_input(wa, o, e);
    let wc = add_member(wb, g, e);
    assert(removing_edge(w, e) == w);
    assert(inserting_edge(w, e, d) == wc);
    lemma_list_ops_at(w1, i, e, x);
    lemma_list_ops_at(wa, o, e, x);
    lemma_member_ops_at(wb, g, e, x);
    lemma_list_ops_at(w1, i, e, e as int);
    lemma_list_ops_at(wa, o, e, e as int);
    lemma_member_ops_at(wb, g, e, e as int);
    assert(edge_of(wc, e) == Some(d));
    let r1 = with_edge(wc, e, None);
    let r2 = drop_output(r1, i, e);
    let r3 = drop_input(r2, o, e);
    let r4 = drop_member(r3, g, e);
    assert(removing_edge(wc, e) == r4);
    lemma_list_ops_at(r1, i, e, x);
    lemma_list_ops_at(r2, o, e, x);
    lemma_member_ops_at(r3, g, e, x);
    assert(r4[x].node == w[x].node) by {
        if x == i as int || x == o as int {
            lemma_node_round_trip(w[x].node, e, x == o as int, x == i as int);
        }
    }
    assert(r4[x].graph == w[x].graph) by {
        if x == g as int {
            let gs = match graph_of(w, g) {
                Some(es) => es,
                None => Seq::<u64>::empty(),
            };
            lemma_without_push(gs, e);
        }
    }
    assert(r4[x] == w[x]);
}

/// Inserting a valid edge component on an entity that carries none, and
/// taking it off again, gives back the world, wherever the nodes and the
/// graph that the edge joins carry no component yet or list some edge.
pub proof fn lemma_insert_then_remove_edge(w: Seq<EntityState>, e: u64, d: Edge)
    requires
        wf(w),
        alive(w, e),
        edge_of(w, e) is None,
        edge_fault(w, e, d) is None,
        lists_some(node_of(w, d.input)),
        lists_some(node_of(w, d.output)),
        graph_of(w, d.graph) is Some ==> graph_of(w, d.graph)->0.len() > 0,
    ensures
        removing_edge(inserting_edge(w, e, d), e) == w,
{
    lemma_unlisted(w, e);
    assert(node_of(w, d.input) is Some ==> !node_of(w, d.input)->0.inputs.contains(e)
        && !node_of(w, d.input)->0.outputs.contains(e));
    assert(node_of(w, d.output) is Some ==> !node_of(w, d.output)->0.inputs.contains(e)
        && !node_of(w, d.output)->0.outputs.contains(e));
    assert(graph_of(w, d.graph) is Some ==> !graph_of(w, d.graph)->0.contains(e));
    let r = removing_edge(inserting_edge(w, e, d), e);
    lemma_inserting_edge_alive(w, e, d);
    lemma_removing_edge_alive(inserting_edge(w, e, d), e);
    assert forall|x: int| 0 <= x < w.len() implies #[trigger] r[x] == w[x] by {
        lemma_insert_then_remove_at(w, e, d, x);
    }
    assert(r =~= w);
}

} // verus!
