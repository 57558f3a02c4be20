//! Nodes, edges and the graph that the engine advances.
use vstd::prelude::*;

verus! {

/// A directed edge: `tokensin` is added when `from` completes a firing,
/// `tokensout` is taken when `to` starts one, `currentholding` is the buffer.
pub struct Edge {
    pub from: String,
    pub to: String,
    pub tokensin: u32,
    pub tokensout: u32,
    pub currentholding: u32,
}

/// An edge as plain values.
pub struct EdgeV {
    pub from: Seq<char>,
    pub to: Seq<char>,
    pub tokensin: u32,
    pub tokensout: u32,
    pub currentholding: u32,
}

impl View for Edge {
    type V = EdgeV;

    open spec fn view(&self) -> EdgeV {
        EdgeV {
            from: self.from@,
            to: self.to@,
            tokensin: self.tokensin,
            tokensout: self.tokensout,
            currentholding: self.currentholding,
        }
    }
}

/// A processing stage: `time` is the length of one firing, `firing` the
/// ticks left of the current one (zero when idle). `pending` marks a firing
/// of length zero that has started and completes at the next tick phase.
pub struct Node {
    pub name: String,
    pub firing: u32,
    pub time: u32,
    pub pending: bool,
}

/// A node as plain values.
pub struct NodeV {
    pub name: Seq<char>,
    pub firing: u32,
    pub time: u32,
    pub pending: bool,
}

impl View for Node {
    type V = NodeV;

    open spec fn view(&self) -> NodeV {
        NodeV { name: self.name@, firing: self.firing, time: self.time, pending: self.pending }
    }
}

/// Why a graph could not be built.
#[derive(PartialEq, Eq, Structural, Clone, Copy, Debug)]
pub enum ConfigError {
    /// A number in the topology text is not an unsigned decimal integer.
    NotANumber,
    /// The initial section names an edge that the layout does not have.
    UnknownEdge,
    /// An edge names a node that the node list does not have.
    UnknownNode,
    /// Two nodes share a name.
    DuplicateNode,
    /// A node's configuration lacks its name, or a firing length that is an
    /// unsigned 32-bit number.
    BadNodeConfig,
}

/// The description of an error.
pub open spec fn message_of(e: ConfigError) -> Seq<char> {
    match e {
        ConfigError::NotANumber => "non integer value in topology"@,
        ConfigError::UnknownEdge => "non existing edge in initial section"@,
        ConfigError::UnknownNode => "edge refers to a node that does not exist"@,
        ConfigError::DuplicateNode => "two nodes share a name"@,
        ConfigError::BadNodeConfig => "node configuration without a name or a valid firing time"@,
    }
}

impl ConfigError {
    /// A description of the error.
    pub fn message(&self) -> (r: String)
        ensures
            r@ == message_of(*self),
    {
        match self {
            ConfigError::NotANumber => "non integer value in topology".to_owned(),
            ConfigError::UnknownEdge => "non existing edge in initial section".to_owned(),
            ConfigError::UnknownNode => "edge refers to a node that does not exist".to_owned(),
            ConfigError::DuplicateNode => "two nodes share a name".to_owned(),
            ConfigError::BadNodeConfig => "node configuration without a name or a valid firing time".to_owned(),
        }
    }
}

/// The edges, in the order of the layout, and the nodes, keyed by name:
/// `wf` asks that no two nodes share one.
pub struct Graph {
    pub edges: Vec<Edge>,
    pub nodes: Vec<Node>,
}

/// The edges as plain values.
pub open spec fn edges_view(edges: Seq<Edge>) -> Seq<EdgeV> {
    edges.map_values(|e: Edge| e@)
}

/// The nodes as plain values.
pub open spec fn nodes_view(nodes: Seq<Node>) -> Seq<NodeV> {
    nodes.map_values(|n: Node| n@)
}

/// The index of the first edge at or after `i` that runs from `from` to `to`.
pub open spec fn find_edge_from(edges: Seq<EdgeV>, from: Seq<char>, to: Seq<char>, i: int) -> Option<
    int,
>
    decreases edges.len() - i,
{
    if i < 0 || i >= edges.len() {
        None
    } else if edges[i].from == from && edges[i].to == to {
        Some(i)
    } else {
        find_edge_from(edges, from, to, i + 1)
    }
}

/// The index of the first edge that runs from `from` to `to`.
pub open spec fn first_edge(edges: Seq<EdgeV>, from: Seq<char>, to: Seq<char>) -> Option<int> {
    find_edge_from(edges, from, to, 0)
}

/// Whether some node is called `name`.
pub open spec fn has_node(nodes: Seq<NodeV>, name: Seq<char>) -> bool {
    exists|i: int| 0 <= i < nodes.len() && (#[trigger] nodes[i]).name == name
}

/// No two nodes share a name.
pub open spec fn names_unique(nodes: Seq<NodeV>) -> bool {
    forall|i: int, j: int|
        0 <= i < nodes.len() && 0 <= j < nodes.len() && i != j ==> (#[trigger] nodes[i]).name
            != (#[trigger] nodes[j]).name
}

/// Every edge runs between nodes of the graph.
pub open spec fn edges_closed(edges: Seq<EdgeV>, nodes: Seq<NodeV>) -> bool {
    forall|j: int|
        0 <= j < edges.len() ==> has_node(nodes, (#[trigger] edges[j]).from) && has_node(
            nodes,
            edges[j].to,
        )
}

/// No node has more ticks left than a firing takes.
pub open spec fn countdowns_bounded(nodes: Seq<NodeV>) -> bool {
    forall|i: int| 0 <= i < nodes.len() ==> (#[trigger] nodes[i]).firing <= nodes[i].time
}

/// A well-formed graph.
pub open spec fn graph_wf(edges: Seq<EdgeV>, nodes: Seq<NodeV>) -> bool {
    names_unique(nodes) && edges_closed(edges, nodes) && countdowns_bounded(nodes)
}

impl Graph {
    /// The edges as plain values.
    pub open spec fn edges_v(&self) -> Seq<EdgeV> {
        edges_view(self.edges@)
    }

    /// The nodes as plain values.
    pub open spec fn nodes_v(&self) -> Seq<NodeV> {
        nodes_view(self.nodes@)
    }

    /// Node names unique, edges between nodes, countdowns within firing lengths.
    pub open spec fn wf(&self) -> bool {
        graph_wf(self.edges_v(), self.nodes_v())
    }
}

/// Tries to find the first edge from `from` to `to`; gives its index.
pub fn findEdge(edges: &Vec<Edge>, from: &String, to: &String) -> (r: Option<usize>)
    ensures
        r matches Some(i) ==> i < edges.len(),
        r matches Some(i) ==> Some(i as int) == first_edge(edges_view(edges@), from@, to@),
        r is None ==> first_edge(edges_view(edges@), from@, to@) is None,
{
    let ghost ev = edges_view(edges@);
    let mut i: usize = 0;
    while i < edges.len()
        invariant
            i <= edges.len(),
            ev == edges_view(edges@),
            first_edge(ev, from@, to@) == find_edge_from(ev, from@, to@, i as int),
        decreases edges.len() - i,
    {
        if edges[i].from == *from && edges[i].to == *to {
            return Some(i);
        }
        i = i + 1;
    }
    None
}

} // verus!
