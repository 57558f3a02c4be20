//! The firing engine: a tick phase that advances firings and produces
//! tokens, an eligibility snapshot, and a fire phase that consumes tokens.
use vstd::prelude::*;
use crate::model::{Edge, EdgeV, Node, NodeV, Graph, names_unique, graph_wf, edges_view, nodes_view};

verus! {

/// Every edge into `name` holds at least the tokens it asks for.
pub open spec fn inputs_ready(edges: Seq<EdgeV>, name: Seq<char>) -> bool {
    forall|j: int|
        0 <= j < edges.len() && (#[trigger] edges[j]).to == name ==> edges[j].tokensout
            <= edges[j].currentholding
}

/// A node may start firing: it is idle (no ticks left and no firing of
/// length zero waiting to complete) and its inputs are ready.
pub open spec fn can_fire(edges: Seq<EdgeV>, n: NodeV) -> bool {
    n.firing == 0 && !n.pending && inputs_ready(edges, n.name)
}

/// An edge after its target took its tokens.
pub open spec fn deducted(e: EdgeV) -> EdgeV {
    EdgeV { currentholding: (e.currentholding - e.tokensout) as u32, ..e }
}

/// A node that has started a firing; one of length zero is marked to
/// complete at the next tick phase.
pub open spec fn started(n: NodeV) -> NodeV {
    NodeV { firing: n.time, pending: n.time == 0, ..n }
}

/// The edges after the node `name` took its tokens from each edge into it.
pub open spec fn fire_edges(edges: Seq<EdgeV>, name: Seq<char>) -> Seq<EdgeV> {
    edges.map_values(|e: EdgeV| if e.to == name { deducted(e) } else { e })
}

/// Checks whether a node can start firing: idle, and every edge into it
/// holds at least the tokens it asks for.
pub fn checkNodeInputs(edges: &Vec<Edge>, n: &Node) -> (r: bool)
    ensures
        r == can_fire(edges_view(edges@), n@),
        n.firing > 0 || n.pending ==> !r,
{
    if n.firing > 0 || n.pending {
        return false;
    }
    let ghost ev = edges_view(edges@);
    let mut j: usize = 0;
    while j < edges.len()
        invariant
            j <= edges.len(),
            ev == edges_view(edges@),
            forall|k: int|
                0 <= k < j && (#[trigger] ev[k]).to == n.name@ ==> ev[k].tokensout
                    <= ev[k].currentholding,
        decreases edges.len() - j,
    {
        if edges[j].to == n.name {
            if edges[j].tokensout > edges[j].currentholding {
                assert(ev[j as int].to == n.name@);
                return false;
            }
        }
        j = j + 1;
    }
    true
}

/// Starts a firing of an idle node: takes the tokens of each edge into it
/// and sets its countdown to its firing length (a firing of length zero is
/// marked pending, to complete at the next tick phase). A node already
/// firing is left as it is.
pub fn fireNode(edges: &mut Vec<Edge>, n: &mut Node)
    requires
        old(n).firing == 0 && !old(n).pending ==> inputs_ready(
            edges_view(old(edges)@),
            old(n).name@,
        ),
    ensures
        old(n).firing > 0 || old(n).pending ==> *final(edges) == *old(edges) && *final(n) == *old(
            n,
        ),
        old(n).firing == 0 && !old(n).pending ==> edges_view(final(edges)@) == fire_edges(
            edges_view(old(edges)@),
            old(n).name@,
        ) && final(n)@ == started(old(n)@),
{
    if n.firing > 0 || n.pending {
        return;
    }
    let ghost ev = edges_view(edges@);
    let mut j: usize = 0;
    while j < edges.len()
        invariant
            j <= edges.len(),
            edges.len() == ev.len(),
            inputs_ready(ev, n.name@),
            forall|k: int|
                0 <= k < edges.len() ==> #[trigger] edges_view(edges@)[k] == if k < j
                    && ev[k].to == n.name@ {
                    deducted(ev[k])
                } else {
                    ev[k]
                },
        decreases edges.len() - j,
    {
        assert(edges_view(edges@)[j as int] == edges@[j as int]@);
        if edges[j].to == n.name {
            assert(ev[j as int].to == n.name@);
            let ghost prev = edges_view(edges@);
            let take = edges[j].tokensout;
            edges[j].currentholding = edges[j].currentholding - take;
            assert(edges_view(edges@) =~= prev.update(j as int, deducted(ev[j as int])));
        }
        j = j + 1;
    }
    n.firing = n.time;
    n.pending = n.time == 0;
    assert(edges_view(edges@) =~= fire_edges(ev, n.name@));
}

/// A node completes its firing in a tick of `ts`: it was firing with at
/// most `ts` ticks left, or it started a firing of length zero.
pub open spec fn completes_node(n: NodeV, ts: u32) -> bool {
    (0 < n.firing <= ts) || n.pending
}

/// Among the first `k` nodes, one called `name` completes its firing in a
/// tick of `ts`.
pub open spec fn completes_among(nodes: Seq<NodeV>, name: Seq<char>, ts: u32, k: int) -> bool {
    exists|i: int|
        0 <= i < k && i < nodes.len() && (#[trigger] nodes[i]).name == name && completes_node(
            nodes[i],
            ts,
        )
}

/// The node `name` completes its firing in a tick of `ts`.
pub open spec fn completes(nodes: Seq<NodeV>, name: Seq<char>, ts: u32) -> bool {
    completes_among(nodes, name, ts, nodes.len() as int)
}

/// A node after a tick of `ts`: its countdown drops by `ts`, not below zero,
/// and a pending firing of length zero is complete.
pub open spec fn ticked(n: NodeV, ts: u32) -> NodeV {
    NodeV { firing: if n.firing > ts { (n.firing - ts) as u32 } else { 0 }, pending: false, ..n }
}

/// An edge after its source completed a firing.
pub open spec fn produced(e: EdgeV) -> EdgeV {
    EdgeV { currentholding: (e.currentholding + e.tokensin) as u32, ..e }
}

/// The nodes after the tick phase.
pub open spec fn tick_nodes(nodes: Seq<NodeV>, ts: u32) -> Seq<NodeV> {
    nodes.map_values(|n: NodeV| ticked(n, ts))
}

/// The edges after the tick phase: each edge out of a completing node gains
/// its `tokensin`.
pub open spec fn tick_edges(edges: Seq<EdgeV>, nodes: Seq<NodeV>, ts: u32) -> Seq<EdgeV> {
    edges.map_values(|e: EdgeV| if completes(nodes, e.from, ts) { produced(e) } else { e })
}

/// The tokens produced in a tick of `ts` fit in an edge's buffer.
pub open spec fn production_fits(edges: Seq<EdgeV>, nodes: Seq<NodeV>, ts: u32) -> bool {
    forall|j: int|
        0 <= j < edges.len() && completes(nodes, (#[trigger] edges[j]).from, ts)
            ==> edges[j].currentholding + edges[j].tokensin <= u32::MAX
}

/// The tick phase: each firing node's countdown drops by `timestep` (not
/// below zero); each node whose countdown reaches zero, and each node whose
/// firing of length zero is pending, adds `tokensin` to every edge out of
/// it. No edge loses tokens.
pub fn tickNodes(nodes: &mut Vec<Node>, edges: &mut Vec<Edge>, timestep: u32)
    requires
        names_unique(nodes_view(old(nodes)@)),
        production_fits(edges_view(old(edges)@), nodes_view(old(nodes)@), timestep),
    ensures
        nodes_view(final(nodes)@) == tick_nodes(nodes_view(old(nodes)@), timestep),
        edges_view(final(edges)@) == tick_edges(
            edges_view(old(edges)@),
            nodes_view(old(nodes)@),
            timestep,
        ),
        final(edges).len() == old(edges).len(),
        forall|j: int|
            0 <= j < old(edges).len() ==> (#[trigger] final(edges)@[j]).currentholding
                >= old(edges)@[j].currentholding,
{
    let ghost nv0 = nodes_view(nodes@);
    let ghost ev0 = edges_view(edges@);
    let mut i: usize = 0;
    while i < nodes.len()
        invariant
            i <= nodes.len(),
            nodes.len() == nv0.len(),
            edges.len() == ev0.len(),
            names_unique(nv0),
            production_fits(ev0, nv0, timestep),
            forall|k: int|
                0 <= k < nodes.len() ==> #[trigger] nodes_view(nodes@)[k] == if k < i {
                    ticked(nv0[k], timestep)
                } else {
                    nv0[k]
                },
            forall|j: int|
                0 <= j < edges.len() ==> #[trigger] edges_view(edges@)[j] == if completes_among(
                    nv0,
                    ev0[j].from,
                    timestep,
                    i as int,
                ) {
                    produced(ev0[j])
                } else {
                    ev0[j]
                },
        decreases nodes.len() - i,
    {
        assert(nodes_view(nodes@)[i as int] == nodes@[i as int]@);
        let f = nodes[i].firing;
        let done = (f > 0 && f <= timestep) || nodes[i].pending;
        let ghost nprev = nodes_view(nodes@);
        nodes[i].firing = if f > timestep { f - timestep } else { 0 };
        nodes[i].pending = false;
        assert(nodes_view(nodes@) =~= nprev.update(i as int, ticked(nv0[i as int], timestep)));
        let mut j: usize = 0;
        while j < edges.len()
            invariant
                i < nodes.len(),
                j <= edges.len(),
                nodes.len() == nv0.len(),
                edges.len() == ev0.len(),
                names_unique(nv0),
                production_fits(ev0, nv0, timestep),
                nodes@[i as int].name@ == nv0[i as int].name,
                done == completes_node(nv0[i as int], timestep),
                forall|k: int|
                    0 <= k < nodes.len() ==> #[trigger] nodes_view(nodes@)[k] == if k <= i {
                        ticked(nv0[k], timestep)
                    } else {
                        nv0[k]
                    },
                forall|m: int|
                    0 <= m < edges.len() ==> #[trigger] edges_view(edges@)[m] == if completes_among(
                        nv0,
                        ev0[m].from,
                        timestep,
                        if m < j {
                            i + 1
                        } else {
                            i as int
                        },
                    ) {
                        produced(ev0[m])
                    } else {
                        ev0[m]
                    },
            decreases edges.len() - j,
        {
            assert(edges_view(edges@)[j as int] == edges@[j as int]@);
            let from_here = done && edges[j].from == nodes[i].name;
            proof {
                let name = ev0[j as int].from;
                if completes_among(nv0, name, timestep, i + 1) && !completes_among(
                    nv0,
                    name,
                    timestep,
                    i as int,
                ) {
                    let w = choose|w: int|
                        0 <= w < i + 1 && w < nv0.len() && (#[trigger] nv0[w]).name == name
                            && completes_node(nv0[w], timestep);
                    assert(w == i);
                }
                if from_here {
                    assert(nv0[i as int].name == name);
                    assert(completes_among(nv0, name, timestep, i + 1));
                    if completes_among(nv0, name, timestep, i as int) {
                        let w = choose|w: int|
                            0 <= w < i && w < nv0.len() && (#[trigger] nv0[w]).name == name
                                && completes_node(nv0[w], timestep);
                        assert(nv0[w].name != nv0[i as int].name);
                    }
                    assert(completes(nv0, ev0[j as int].from, timestep));
                }
            }
            if from_here {
                let ghost prev = edges_view(edges@);
                let add = edges[j].tokensin;
                edges[j].currentholding = edges[j].currentholding + add;
                assert(edges_view(edges@) =~= prev.update(j as int, produced(ev0[j as int])));
            }
            j = j + 1;
        }
        i = i + 1;
    }
    assert(nodes_view(nodes@) =~= tick_nodes(nv0, timestep));
    assert(edges_view(edges@) =~= tick_edges(ev0, nv0, timestep));
    assert forall|j: int| 0 <= j < edges.len() implies (#[trigger] edges@[j]).currentholding
        >= old(edges)@[j].currentholding by {
        assert(edges_view(edges@)[j] == edges@[j]@);
        assert(ev0[j] == old(edges)@[j]@);
    }
}

/// The state after firing the nodes at the indices of `order`, one after
/// another, each through `fire_edges` and `started`: each step is what
/// `fireNode` ensures of one call on an idle node.
pub open spec fn fire_seq(edges: Seq<EdgeV>, nodes: Seq<NodeV>, order: Seq<int>) -> (
    Seq<EdgeV>,
    Seq<NodeV>,
)
    decreases order.len(),
{
    if order.len() == 0 {
        (edges, nodes)
    } else {
        let p = fire_seq(edges, nodes, order.drop_last());
        let i = order.last();
        (fire_edges(p.0, p.1[i].name), p.1.update(i, started(p.1[i])))
    }
}

/// Some node whose index is in `s` is called `name`.
pub open spec fn fires_into(nodes: Seq<NodeV>, s: Set<int>, name: Seq<char>) -> bool {
    exists|i: int| #[trigger] s.contains(i) && 0 <= i < nodes.len() && nodes[i].name == name
}

/// The state after the nodes at the indices in `s` started firing: each
/// edge into one of them gave up its `tokensout`, and each of them counts
/// down from its firing length.
pub open spec fn fire_set(edges: Seq<EdgeV>, nodes: Seq<NodeV>, s: Set<int>) -> (
    Seq<EdgeV>,
    Seq<NodeV>,
) {
    (
        edges.map_values(|e: EdgeV| if fires_into(nodes, s, e.to) { deducted(e) } else { e }),
        Seq::new(nodes.len(), |i: int| if s.contains(i) { started(nodes[i]) } else { nodes[i] }),
    )
}

/// The indices of the nodes that can fire.
pub open spec fn eligible_set(edges: Seq<EdgeV>, nodes: Seq<NodeV>) -> Set<int> {
    Set::new(|i: int| 0 <= i < nodes.len() && can_fire(edges, nodes[i]))
}

/// The graph after one step of `ts`: the tick phase, then every node that
/// can fire in the ticked state starts firing.
pub open spec fn advanced(edges: Seq<EdgeV>, nodes: Seq<NodeV>, ts: u32) -> (
    Seq<EdgeV>,
    Seq<NodeV>,
) {
    let n1 = tick_nodes(nodes, ts);
    let e1 = tick_edges(edges, nodes, ts);
    fire_set(e1, n1, eligible_set(e1, n1))
}

/// Firing a sequence of distinct nodes that could all fire at its start is
/// firing the set of them.
pub proof fn lemma_fire_seq_is_set(edges: Seq<EdgeV>, nodes: Seq<NodeV>, order: Seq<int>)
    requires
        names_unique(nodes),
        order.no_duplicates(),
        forall|k: int|
            0 <= k < order.len() ==> 0 <= #[trigger] order[k] < nodes.len() && can_fire(
                edges,
                nodes[order[k]],
            ),
    ensures
        fire_seq(edges, nodes, order) == fire_set(edges, nodes, order.to_set()),
    decreases order.len(),
{
    if order.len() == 0 {
        assert(fire_set(edges, nodes, order.to_set()).0 =~= edges);
        assert(fire_set(edges, nodes, order.to_set()).1 =~= nodes);
    } else {
        let front = order.drop_last();
        let i = order.last();
        assert forall|k: int| 0 <= k < front.len() implies 0 <= #[trigger] front[k] < nodes.len()
            && can_fire(edges, nodes[front[k]]) by {
            assert(front[k] == order[k]);
        }
        lemma_fire_seq_is_set(edges, nodes, front);
        let sf = front.to_set();
        let s = order.to_set();
        assert(!sf.contains(i)) by {
            if sf.contains(i) {
                let k = choose|k: int| 0 <= k < front.len() && front[k] == i;
                assert(order[k] == order[order.len() - 1]);
            }
        }
        assert(s =~= sf.insert(i)) by {
            assert forall|x: int| s.contains(x) <==> sf.contains(x) || x == i by {
                if s.contains(x) && x != i {
                    let k = choose|k: int| 0 <= k < order.len() && order[k] == x;
                    assert(front[k] == x);
                }
                if sf.contains(x) {
                    let k = choose|k: int| 0 <= k < front.len() && front[k] == x;
                    assert(order[k] == x);
                }
                if x == i {
                    assert(order[order.len() - 1] == x);
                }
            }
        }
        assert(0 <= i < nodes.len() && can_fire(edges, nodes[i])) by {
            assert(order[order.len() - 1] == i);
        }
        let p = fire_set(edges, nodes, sf);
        let name = nodes[i].name;
        assert(p.1[i] == nodes[i]);
        assert forall|m: int| 0 <= m < edges.len() implies #[trigger] fire_edges(p.0, name)[m]
            == fire_set(edges, nodes, s).0[m] by {
            let e = edges[m];
            assert(p.0[m] == if fires_into(nodes, sf, e.to) { deducted(e) } else { e });
            assert(fire_edges(p.0, name)[m] == if p.0[m].to == name {
                deducted(p.0[m])
            } else {
                p.0[m]
            });
            assert(fire_set(edges, nodes, s).0[m] == if fires_into(nodes, s, e.to) {
                deducted(e)
            } else {
                e
            });
            if fires_into(nodes, sf, e.to) {
                let w = choose|w: int|
                    #[trigger] sf.contains(w) && 0 <= w < nodes.len() && nodes[w].name == e.to;
                assert(s.contains(w));
            }
            if e.to == name {
                assert(s.contains(i));
                assert(fires_into(nodes, s, e.to));
                if fires_into(nodes, sf, e.to) {
                    let w = choose|w: int|
                        #[trigger] sf.contains(w) && 0 <= w < nodes.len() && nodes[w].name == e.to;
                    assert(w != i);
                }
            } else {
                if fires_into(nodes, s, e.to) {
                    let w = choose|w: int|
                        #[trigger] s.contains(w) && 0 <= w < nodes.len() && nodes[w].name == e.to;
                    assert(sf.contains(w));
                }
            }
        }
        assert(fire_edges(p.0, name) =~= fire_set(edges, nodes, s).0);
        assert(p.1.update(i, started(p.1[i])) =~= fire_set(edges, nodes, s).1);
    }
}

/// The fire phase does not depend on the order in which the eligible nodes
/// are fired: any two orders of the same distinct nodes, each of which could
/// fire at the start, end in the same state.
pub proof fn lemma_fire_order_irrelevant(
    edges: Seq<EdgeV>,
    nodes: Seq<NodeV>,
    a: Seq<int>,
    b: Seq<int>,
)
    requires
        names_unique(nodes),
        a.no_duplicates(),
        b.no_duplicates(),
        a.to_set() == b.to_set(),
        forall|k: int|
            0 <= k < a.len() ==> 0 <= #[trigger] a[k] < nodes.len() && can_fire(
                edges,
                nodes[a[k]],
            ),
    ensures
        fire_seq(edges, nodes, a) == fire_seq(edges, nodes, b),
{
    assert forall|k: int| 0 <= k < b.len() implies 0 <= #[trigger] b[k] < nodes.len() && can_fire(
        edges,
        nodes[b[k]],
    ) by {
        assert(b.to_set().contains(b[k]));
        let m = choose|m: int| 0 <= m < a.len() && a[m] == b[k];
        assert(a[m] == b[k]);
    }
    lemma_fire_seq_is_set(edges, nodes, a);
    lemma_fire_seq_is_set(edges, nodes, b);
}

/// A node outside `s` that could fire before the nodes of `s` started can
/// still fire after.
proof fn lemma_fire_set_keeps_ready(edges: Seq<EdgeV>, nodes: Seq<NodeV>, s: Set<int>, i: int)
    requires
        names_unique(nodes),
        0 <= i < nodes.len(),
        !s.contains(i),
        can_fire(edges, nodes[i]),
    ensures
        can_fire(fire_set(edges, nodes, s).0, fire_set(edges, nodes, s).1[i]),
{
    let p = fire_set(edges, nodes, s);
    assert(p.1[i] == nodes[i]);
    assert forall|j: int| 0 <= j < p.0.len() && (#[trigger] p.0[j]).to == nodes[i].name implies p.0[
        j].tokensout <= p.0[j].currentholding by {
        if fires_into(nodes, s, edges[j].to) {
            let w = choose|w: int|
                #[trigger] s.contains(w) && 0 <= w < nodes.len() && nodes[w].name == edges[j].to;
            assert(w != i);
        }
    }
}

/// A step keeps a graph well formed.
pub proof fn lemma_advanced_wf(edges: Seq<EdgeV>, nodes: Seq<NodeV>, ts: u32)
    requires
        graph_wf(edges, nodes),
    ensures
        graph_wf(advanced(edges, nodes, ts).0, advanced(edges, nodes, ts).1),
{
    let n1 = tick_nodes(nodes, ts);
    let e1 = tick_edges(edges, nodes, ts);
    let r = advanced(edges, nodes, ts);
    assert forall|i: int| 0 <= i < nodes.len() implies (#[trigger] r.1[i]).name == nodes[i].name
        && r.1[i].time == nodes[i].time && r.1[i].firing <= r.1[i].time by {
        assert(n1[i] == ticked(nodes[i], ts));
    }
    assert forall|j: int| 0 <= j < edges.len() implies (#[trigger] r.0[j]).from == edges[j].from
        && r.0[j].to == edges[j].to by {
        assert(e1[j].from == edges[j].from);
    }
    assert forall|j: int| 0 <= j < r.0.len() implies crate::model::has_node(
        r.1,
        (#[trigger] r.0[j]).from,
    ) && crate::model::has_node(r.1, r.0[j].to) by {
        let a = choose|a: int| 0 <= a < nodes.len() && (#[trigger] nodes[a]).name == edges[j].from;
        assert(r.1[a].name == edges[j].from);
        let b = choose|b: int| 0 <= b < nodes.len() && (#[trigger] nodes[b]).name == edges[j].to;
        assert(r.1[b].name == edges[j].to);
    }
}

/// Whether some node called `name` completes its firing in a tick of `ts`.
pub fn completes_now(nodes: &Vec<Node>, name: &String, ts: u32) -> (r: bool)
    ensures
        r == completes(nodes_view(nodes@), name@, ts),
{
    let ghost nv = nodes_view(nodes@);
    let mut i: usize = 0;
    while i < nodes.len()
        invariant
            i <= nodes.len(),
            nv == nodes_view(nodes@),
            !completes_among(nv, name@, ts, i as int),
        decreases nodes.len() - i,
    {
        assert(nv[i as int] == nodes@[i as int]@);
        if nodes[i].name == *name && ((nodes[i].firing > 0 && nodes[i].firing <= ts)
            || nodes[i].pending) {
            assert(completes_among(nv, name@, ts, nodes.len() as int));
            return true;
        }
        assert forall|w: int| 0 <= w < i + 1 && w < nv.len() && (#[trigger] nv[w]).name == name@
            implies !completes_node(nv[w], ts) by {
            if w < i {
                assert(!completes_among(nv, name@, ts, i as int));
            }
        }
        i = i + 1;
    }
    false
}

impl Graph {
    /// Whether a step of `timestep` can add its tokens without overflowing
    /// an edge's buffer: the condition under which `advance` may be called.
    pub fn can_advance(&self, timestep: u32) -> (r: bool)
        ensures
            r == production_fits(self.edges_v(), self.nodes_v(), timestep),
    {
        let ghost ev = self.edges_v();
        let mut j: usize = 0;
        while j < self.edges.len()
            invariant
                j <= self.edges.len(),
                ev == self.edges_v(),
                forall|m: int|
                    0 <= m < j && completes(self.nodes_v(), (#[trigger] ev[m]).from, timestep)
                        ==> ev[m].currentholding + ev[m].tokensin <= u32::MAX,
            decreases self.edges.len() - j,
        {
            assert(ev[j as int] == self.edges@[j as int]@);
            let e = &self.edges[j];
            if completes_now(&self.nodes, &e.from, timestep) && e.currentholding as u64
                + e.tokensin as u64 > u32::MAX as u64 {
                return false;
            }
            j = j + 1;
        }
        true
    }

    /// One simulation step of `timestep`: the tick phase, then a snapshot of
    /// the nodes that can fire, then the fire phase over that snapshot.
    /// Only a node with ticks left completes in the tick phase, so a node
    /// whose firing length is zero takes its inputs and is idle again at
    /// once, without producing.
    pub fn advance(&mut self, timestep: u32)
        requires
            old(self).wf(),
            production_fits(old(self).edges_v(), old(self).nodes_v(), timestep),
        ensures
            (final(self).edges_v(), final(self).nodes_v()) == advanced(
                old(self).edges_v(),
                old(self).nodes_v(),
                timestep,
            ),
            final(self).wf(),
    {
        let ghost e0 = self.edges_v();
        let ghost n0 = self.nodes_v();
        tickNodes(&mut self.nodes, &mut self.edges, timestep);
        let ghost e1 = self.edges_v();
        let ghost n1 = self.nodes_v();
        assert(names_unique(n1)) by {
            assert forall|a: int, b: int|
                0 <= a < n1.len() && 0 <= b < n1.len() && a != b implies (#[trigger] n1[a]).name
                != (#[trigger] n1[b]).name by {
                assert(n1[a].name == n0[a].name);
                assert(n1[b].name == n0[b].name);
            }
        }
        let mut ready: Vec<usize> = Vec::new();
        let mut i: usize = 0;
        while i < self.nodes.len()
            invariant
                i <= self.nodes.len(),
                self.edges_v() == e1,
                self.nodes_v() == n1,
                forall|a: int, b: int| 0 <= a < b < ready.len() ==> ready@[a] < ready@[b],
                forall|a: int| 0 <= a < ready.len() ==> #[trigger] ready@[a] < i,
                forall|x: int|
                    0 <= x < i && can_fire(e1, n1[x]) ==> exists|a: int|
                        0 <= a < ready.len() && #[trigger] ready@[a] == x,
                forall|a: int|
                    0 <= a < ready.len() ==> can_fire(e1, n1[#[trigger] ready@[a] as int]),
            decreases self.nodes.len() - i,
        {
            assert(n1[i as int] == self.nodes@[i as int]@);
            let ghost rb = ready@;
            if checkNodeInputs(&self.edges, &self.nodes[i]) {
                ready.push(i);
                assert(ready@[ready.len() - 1] == i);
            }
            assert forall|x: int| 0 <= x < i + 1 && can_fire(e1, n1[x]) implies exists|a: int|
                0 <= a < ready.len() && #[trigger] ready@[a] == x by {
                if x < i {
                    let a = choose|a: int| 0 <= a < rb.len() && #[trigger] rb[a] == x;
                    assert(ready@[a] == rb[a]);
                } else {
                    assert(ready@[ready.len() - 1] == x);
                }
            }
            i = i + 1;
        }
        let ghost order = ready@.map_values(|x: usize| x as int);
        assert(order.no_duplicates()) by {
            assert forall|a: int, b: int|
                0 <= a < order.len() && 0 <= b < order.len() && a != b implies order[a]
                != order[b] by {
                if a < b {
                    assert(ready@[a] < ready@[b]);
                } else {
                    assert(ready@[b] < ready@[a]);
                }
            }
        }
        let mut k: usize = 0;
        assert(order.take(0) =~= Seq::<int>::empty());
        while k < ready.len()
            invariant
                k <= ready.len(),
                order == ready@.map_values(|x: usize| x as int),
                order.no_duplicates(),
                names_unique(n1),
                n1.len() == self.nodes.len(),
                forall|a: int| 0 <= a < ready.len() ==> #[trigger] ready@[a] < self.nodes.len(),
                forall|a: int|
                    0 <= a < ready.len() ==> can_fire(e1, n1[#[trigger] ready@[a] as int]),
                (self.edges_v(), self.nodes_v()) == fire_seq(e1, n1, order.take(k as int)),
            decreases ready.len() - k,
        {
            let idx = ready[k];
            let ghost pre = order.take(k as int);
            proof {
                assert forall|m: int| 0 <= m < pre.len() implies 0 <= #[trigger] pre[m] < n1.len()
                    && can_fire(e1, n1[pre[m]]) by {
                    assert(pre[m] == ready@[m] as int);
                }
                assert(pre.no_duplicates()) by {
                    assert forall|a: int, b: int|
                        0 <= a < pre.len() && 0 <= b < pre.len() && a != b implies pre[a]
                        != pre[b] by {
                        assert(pre[a] == order[a] && pre[b] == order[b]);
                    }
                }
                lemma_fire_seq_is_set(e1, n1, pre);
                assert(!pre.to_set().contains(idx as int)) by {
                    if pre.to_set().contains(idx as int) {
                        let m = choose|m: int| 0 <= m < pre.len() && pre[m] == idx as int;
                        assert(order[m] == order[k as int]);
                    }
                }
                assert(order[k as int] == idx as int);
                lemma_fire_set_keeps_ready(e1, n1, pre.to_set(), idx as int);
                assert(self.nodes_v()[idx as int] == self.nodes@[idx as int]@);
            }
            let ghost nbefore = self.nodes_v();
            fireNode(&mut self.edges, &mut self.nodes[idx]);
            proof {
                assert(order.take(k + 1).drop_last() =~= pre);
                assert(order.take(k + 1).last() == idx as int);
                assert(self.nodes_v() =~= nbefore.update(
                    idx as int,
                    started(nbefore[idx as int]),
                ));
            }
            k = k + 1;
        }
        proof {
            assert(order.take(ready.len() as int) =~= order);
            assert forall|m: int| 0 <= m < order.len() implies 0 <= #[trigger] order[m] < n1.len()
                && can_fire(e1, n1[order[m]]) by {
                assert(order[m] == ready@[m] as int);
            }
            lemma_fire_seq_is_set(e1, n1, order);
            assert(order.to_set() =~= eligible_set(e1, n1)) by {
                assert forall|x: int| order.to_set().contains(x) implies eligible_set(
                    e1,
                    n1,
                ).contains(x) by {
                    let m = choose|m: int| 0 <= m < order.len() && order[m] == x;
                    assert(order[m] == ready@[m] as int);
                }
                assert forall|x: int| eligible_set(e1, n1).contains(x) implies order.to_set().contains(
                    x,
                ) by {
                    let a = choose|a: int| 0 <= a < ready.len() && #[trigger] ready@[a] == x;
                    assert(order[a] == x);
                }
            }
            lemma_advanced_wf(e0, n0, timestep);
        }
    }
}

} // verus!
