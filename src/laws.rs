//! Properties of the firing engine, proved over its step model.
use vstd::prelude::*;
use crate::model::{EdgeV, NodeV, names_unique, graph_wf};
use crate::engine::{
    can_fire, fire_set, fires_into, eligible_set, tick_edges, tick_nodes, completes,
    production_fits, advanced, deducted, produced,
};

verus! {

/// The sum of `f` over the edges.
pub open spec fn sum_by(es: Seq<EdgeV>, f: spec_fn(EdgeV) -> int) -> int
    decreases es.len(),
{
    if es.len() == 0 {
        0
    } else {
        sum_by(es.drop_last(), f) + f(es.last())
    }
}

/// The tokens held over all edges.
pub open spec fn total_tokens(es: Seq<EdgeV>) -> int {
    sum_by(es, |e: EdgeV| e.currentholding as int)
}

/// The tokens that the nodes at indices `s` take when they start firing:
/// `tokensout` of each edge into one of them.
pub open spec fn consumed(edges: Seq<EdgeV>, nodes: Seq<NodeV>, s: Set<int>) -> int {
    sum_by(edges, |e: EdgeV| if fires_into(nodes, s, e.to) { e.tokensout as int } else { 0 })
}

/// The tokens that completing nodes add in a tick of `ts`: `tokensin` of
/// each edge out of one of them.
pub open spec fn produced_total(edges: Seq<EdgeV>, nodes: Seq<NodeV>, ts: u32) -> int {
    sum_by(edges, |e: EdgeV| if completes(nodes, e.from, ts) { e.tokensin as int } else { 0 })
}

proof fn lemma_sum_shift(es: Seq<EdgeV>, g: spec_fn(EdgeV) -> EdgeV, f: spec_fn(EdgeV) -> int)
    requires
        forall|j: int|
            0 <= j < es.len() ==> g(#[trigger] es[j]).currentholding as int == es[j].currentholding
                + f(es[j]),
    ensures
        total_tokens(es.map_values(g)) == total_tokens(es) + sum_by(es, f),
    decreases es.len(),
{
    if es.len() > 0 {
        let front = es.drop_last();
        assert forall|j: int| 0 <= j < front.len() implies g(#[trigger] front[j]).currentholding as int
            == front[j].currentholding + f(front[j]) by {
            assert(front[j] == es[j]);
        }
        lemma_sum_shift(front, g, f);
        assert(es.map_values(g).drop_last() =~= front.map_values(g));
        assert(es.map_values(g).last() == g(es.last()));
        assert(g(es[es.len() - 1]).currentholding as int == es[es.len() - 1].currentholding + f(
            es[es.len() - 1],
        ));
    }
}

/// Conservation in the fire phase: when the nodes at indices `s`, each of
/// which can fire, start firing, the tokens over all edges drop by exactly
/// the `tokensout` of the edges into them.
pub proof fn lemma_fire_phase_conserves(edges: Seq<EdgeV>, nodes: Seq<NodeV>, s: Set<int>)
    requires
        names_unique(nodes),
        forall|i: int| #[trigger] s.contains(i) ==> 0 <= i < nodes.len() && can_fire(edges, nodes[i]),
    ensures
        total_tokens(fire_set(edges, nodes, s).0) == total_tokens(edges) - consumed(edges, nodes, s),
{
    let g = |e: EdgeV| if fires_into(nodes, s, e.to) { deducted(e) } else { e };
    let f = |e: EdgeV| if fires_into(nodes, s, e.to) { e.tokensout as int } else { 0 };
    let neg = |e: EdgeV| -f(e);
    assert forall|j: int| 0 <= j < edges.len() implies g(#[trigger] edges[j]).currentholding as int
        == edges[j].currentholding + neg(edges[j]) by {
        if fires_into(nodes, s, edges[j].to) {
            let w = choose|w: int|
                #[trigger] s.contains(w) && 0 <= w < nodes.len() && nodes[w].name == edges[j].to;
            assert(can_fire(edges, nodes[w]));
        }
    }
    lemma_sum_shift(edges, g, neg);
    lemma_sum_neg(edges, f, neg);
    assert(fire_set(edges, nodes, s).0 == edges.map_values(g));
}

proof fn lemma_sum_neg(es: Seq<EdgeV>, f: spec_fn(EdgeV) -> int, neg: spec_fn(EdgeV) -> int)
    requires
        forall|e: EdgeV| #[trigger] neg(e) == -f(e),
    ensures
        sum_by(es, neg) == -sum_by(es, f),
    decreases es.len(),
{
    if es.len() > 0 {
        lemma_sum_neg(es.drop_last(), f, neg);
    }
}

/// Conservation in the tick phase: the tokens over all edges grow by
/// exactly the `tokensin` of the edges out of the nodes that complete.
pub proof fn lemma_tick_phase_conserves(edges: Seq<EdgeV>, nodes: Seq<NodeV>, ts: u32)
    requires
        production_fits(edges, nodes, ts),
    ensures
        total_tokens(tick_edges(edges, nodes, ts)) == total_tokens(edges) + produced_total(
            edges,
            nodes,
            ts,
        ),
{
    let g = |e: EdgeV| if completes(nodes, e.from, ts) { produced(e) } else { e };
    let f = |e: EdgeV| if completes(nodes, e.from, ts) { e.tokensin as int } else { 0 };
    assert forall|j: int| 0 <= j < edges.len() implies g(#[trigger] edges[j]).currentholding as int
        == edges[j].currentholding + f(edges[j]) by {}
    lemma_sum_shift(edges, g, f);
    assert(tick_edges(edges, nodes, ts) == edges.map_values(g));
}

/// No overdraw: in a step of a well-formed graph, every edge that a firing
/// node takes from holds at least what it takes, so no token count is
/// driven below zero.
pub proof fn lemma_advance_never_overdraws(edges: Seq<EdgeV>, nodes: Seq<NodeV>, ts: u32)
    requires
        graph_wf(edges, nodes),
    ensures
        forall|j: int|
            0 <= j < edges.len() && fires_into(
                tick_nodes(nodes, ts),
                eligible_set(tick_edges(edges, nodes, ts), tick_nodes(nodes, ts)),
                (#[trigger] tick_edges(edges, nodes, ts)[j]).to,
            ) ==> tick_edges(edges, nodes, ts)[j].tokensout <= tick_edges(
                edges,
                nodes,
                ts,
            )[j].currentholding,
{
    let n1 = tick_nodes(nodes, ts);
    let e1 = tick_edges(edges, nodes, ts);
    let s = eligible_set(e1, n1);
    assert forall|j: int| 0 <= j < edges.len() && fires_into(n1, s, (#[trigger] e1[j]).to) implies e1[j].tokensout
        <= e1[j].currentholding by {
        let w = choose|w: int| #[trigger] s.contains(w) && 0 <= w < n1.len() && n1[w].name == e1[j].to;
        assert(can_fire(e1, n1[w]));
    }
}

/// No double firing: a node that is firing after the tick phase is not in
/// the eligible set, and a node that was firing with more than `ts` ticks
/// left keeps counting down instead of starting again.
pub proof fn lemma_firing_nodes_not_eligible(edges: Seq<EdgeV>, nodes: Seq<NodeV>, ts: u32)
    ensures
        forall|i: int|
            0 <= i < nodes.len() && (#[trigger] tick_nodes(nodes, ts)[i]).firing > 0 ==> !eligible_set(
                tick_edges(edges, nodes, ts),
                tick_nodes(nodes, ts),
            ).contains(i),
        forall|i: int|
            0 <= i < nodes.len() && (#[trigger] nodes[i]).firing > ts ==> advanced(edges, nodes, ts).1[i].firing
                == nodes[i].firing - ts,
{
    let n1 = tick_nodes(nodes, ts);
    assert forall|i: int| 0 <= i < nodes.len() && (#[trigger] nodes[i]).firing > ts implies advanced(
        edges,
        nodes,
        ts,
    ).1[i].firing == nodes[i].firing - ts by {
        assert(n1[i].firing > 0);
    }
}

} // verus!
