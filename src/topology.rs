//! Building a graph from its nodes and its topology text.
use vstd::prelude::*;
use crate::model::{
    Edge, EdgeV, Node, NodeV, Graph, ConfigError, names_unique, has_node, edges_closed,
    edges_view, nodes_view,
};
use crate::parser::{parse_lines, parse_topology};

verus! {

/// The idle nodes that `(name, firing length)` pairs describe.
pub open spec fn nodes_from(pairs: Seq<(String, u32)>) -> Seq<NodeV> {
    pairs.map_values(|p: (String, u32)| NodeV { name: p.0@, firing: 0, time: p.1, pending: false })
}

/// The lines as plain values.
pub open spec fn lines_view(lines: Seq<String>) -> Seq<Seq<char>> {
    lines.map_values(|l: String| l@)
}

/// The graph that node pairs and topology lines describe, or why there is
/// none: two nodes with one name, an error in the text, or an edge between
/// names that are not nodes.
pub open spec fn built(pairs: Seq<(String, u32)>, lines: Seq<Seq<char>>) -> Result<
    (Seq<EdgeV>, Seq<NodeV>),
    ConfigError,
> {
    let nodes = nodes_from(pairs);
    if !names_unique(nodes) {
        Err(ConfigError::DuplicateNode)
    } else {
        match parse_lines(lines) {
            Err(e) => Err(e),
            Ok(st) => if edges_closed(st.1, nodes) {
                Ok((st.1, nodes))
            } else {
                Err(ConfigError::UnknownNode)
            },
        }
    }
}

/// Whether some node is called `name`.
pub fn node_exists(nodes: &Vec<Node>, name: &String) -> (r: bool)
    ensures
        r == has_node(nodes_view(nodes@), name@),
{
    let ghost nv = nodes_view(nodes@);
    let mut i: usize = 0;
    while i < nodes.len()
        invariant
            i <= nodes.len(),
            nv == nodes_view(nodes@),
            forall|k: int| 0 <= k < i ==> (#[trigger] nv[k]).name != name@,
        decreases nodes.len() - i,
    {
        assert(nv[i as int] == nodes@[i as int]@);
        if nodes[i].name == *name {
            return true;
        }
        i = i + 1;
    }
    false
}

/// Whether no two nodes share a name.
pub fn names_distinct(nodes: &Vec<Node>) -> (r: bool)
    ensures
        r == names_unique(nodes_view(nodes@)),
{
    let ghost nv = nodes_view(nodes@);
    let mut i: usize = 0;
    while i < nodes.len()
        invariant
            i <= nodes.len(),
            nv == nodes_view(nodes@),
            forall|a: int, b: int|
                0 <= a < i && 0 <= b < i && a != b ==> (#[trigger] nv[a]).name
                    != (#[trigger] nv[b]).name,
        decreases nodes.len() - i,
    {
        let mut j: usize = 0;
        while j < i
            invariant
                j <= i < nodes.len(),
                nv == nodes_view(nodes@),
                forall|b: int| 0 <= b < j ==> (#[trigger] nv[b]).name != nv[i as int].name,
            decreases i - j,
        {
            assert(nv[i as int] == nodes@[i as int]@);
            assert(nv[j as int] == nodes@[j as int]@);
            if nodes[j].name == nodes[i].name {
                assert(nv[j as int].name == nv[i as int].name);
                return false;
            }
            j = j + 1;
        }
        i = i + 1;
    }
    true
}

/// One node's configuration, as read from a key-value document: its name,
/// if it is a string, and its firing length, if it is an integer. Gives the
/// pair when both are there and the length fits in 32 unsigned bits.
pub fn node_pair(name: Option<String>, time: Option<i64>) -> (r: Result<(String, u32), ConfigError>)
    ensures
        match (name, time) {
            (Some(n), Some(t)) => if 0 <= t <= u32::MAX {
                r matches Ok(p) && p.0@ == n@ && p.1 == t
            } else {
                r == Err::<(String, u32), ConfigError>(ConfigError::BadNodeConfig)
            },
            _ => r == Err::<(String, u32), ConfigError>(ConfigError::BadNodeConfig),
        },
{
    match (name, time) {
        (Some(n), Some(t)) => if 0 <= t && t <= u32::MAX as i64 {
            Ok((n, t as u32))
        } else {
            Err(ConfigError::BadNodeConfig)
        },
        _ => Err(ConfigError::BadNodeConfig),
    }
}

impl Graph {
    /// Builds the graph: idle nodes from `(name, firing length)` pairs, then
    /// the edges and their tokens from the topology lines.
    pub fn build(pairs: &Vec<(String, u32)>, lines: &Vec<String>) -> (r: Result<Graph, ConfigError>)
        requires
            forall|k: int| 0 <= k < lines.len() ==> (#[trigger] lines@[k])@.len() < u32::MAX,
        ensures
            match built(pairs@, lines_view(lines@)) {
                Ok(g) => r matches Ok(graph) && graph.edges_v() == g.0 && graph.nodes_v() == g.1
                    && graph.wf(),
                Err(e) => r == Err::<Graph, ConfigError>(e),
            },
    {
        let mut nodes: Vec<Node> = Vec::new();
        let mut i: usize = 0;
        while i < pairs.len()
            invariant
                i <= pairs.len(),
                nodes_view(nodes@) =~= nodes_from(pairs@).take(i as int),
            decreases pairs.len() - i,
        {
            let name = pairs[i].0.clone();
            let ghost prev = nodes_view(nodes@);
            nodes.push(Node { name, firing: 0, time: pairs[i].1, pending: false });
            assert(nodes_view(nodes@) =~= prev.push(nodes@[i as int]@));
            assert(nodes_from(pairs@).take(i + 1) =~= nodes_from(pairs@).take(i as int).push(
                nodes_from(pairs@)[i as int],
            ));
            i = i + 1;
        }
        assert(nodes_from(pairs@).take(pairs.len() as int) =~= nodes_from(pairs@));
        if !names_distinct(&nodes) {
            return Err(ConfigError::DuplicateNode);
        }
        assert(lines_view(lines@) =~= lines@.map_values(|l: String| l@));
        let edges = match parse_topology(lines) {
            Ok(es) => es,
            Err(e) => return Err(e),
        };
        let ghost nv = nodes_view(nodes@);
        let ghost ev = edges_view(edges@);
        let mut j: usize = 0;
        while j < edges.len()
            invariant
                j <= edges.len(),
                nv == nodes_view(nodes@),
                ev == edges_view(edges@),
                nv == nodes_from(pairs@),
                names_unique(nv),
                parse_lines(lines_view(lines@)) matches Ok(st) && st.1 == ev,
                forall|m: int|
                    0 <= m < j ==> has_node(nv, (#[trigger] ev[m]).from) && has_node(nv, ev[m].to),
            decreases edges.len() - j,
        {
            assert(ev[j as int] == edges@[j as int]@);
            if !node_exists(&nodes, &edges[j].from) || !node_exists(&nodes, &edges[j].to) {
                assert(!edges_closed(ev, nv)) by {
                    assert(!has_node(nv, ev[j as int].from) || !has_node(nv, ev[j as int].to));
                }
                return Err(ConfigError::UnknownNode);
            }
            j = j + 1;
        }
        let g = Graph { edges, nodes };
        assert(crate::model::countdowns_bounded(nv));
        Ok(g)
    }
}

} // verus!
