//! A read-only record of the graph at a tick, for outside observers.
use vstd::prelude::*;
use vstd::string::*;
use crate::model::{Edge, Node, Graph, edges_view, nodes_view};

verus! {

/// The tick index with a copy of every edge and node.
pub struct Snapshot {
    pub time: u64,
    pub edges: Vec<Edge>,
    pub nodes: Vec<Node>,
}

/// A copy of an edge.
pub fn copy_edge(e: &Edge) -> (r: Edge)
    ensures
        r@ == e@,
{
    Edge {
        from: e.from.clone(),
        to: e.to.clone(),
        tokensin: e.tokensin,
        tokensout: e.tokensout,
        currentholding: e.currentholding,
    }
}

/// A copy of a node.
pub fn copy_node(n: &Node) -> (r: Node)
    ensures
        r@ == n@,
{
    Node { name: n.name.clone(), firing: n.firing, time: n.time, pending: n.pending }
}

impl Graph {
    /// The state of the graph at tick `time`; the graph is not changed.
    pub fn snapshot(&self, time: u64) -> (r: Snapshot)
        ensures
            r.time == time,
            edges_view(r.edges@) == self.edges_v(),
            nodes_view(r.nodes@) == self.nodes_v(),
    {
        let mut edges: Vec<Edge> = Vec::new();
        let mut j: usize = 0;
        while j < self.edges.len()
            invariant
                j <= self.edges.len(),
                edges_view(edges@) =~= self.edges_v().take(j as int),
            decreases self.edges.len() - j,
        {
            let ghost prev = edges_view(edges@);
            edges.push(copy_edge(&self.edges[j]));
            assert(edges_view(edges@) =~= prev.push(self.edges@[j as int]@));
            assert(self.edges_v().take(j + 1) =~= self.edges_v().take(j as int).push(
                self.edges_v()[j as int],
            ));
            j = j + 1;
        }
        let mut nodes: Vec<Node> = Vec::new();
        let mut i: usize = 0;
        while i < self.nodes.len()
            invariant
                i <= self.nodes.len(),
                nodes_view(nodes@) =~= self.nodes_v().take(i as int),
            decreases self.nodes.len() - i,
        {
            let ghost prev = nodes_view(nodes@);
            nodes.push(copy_node(&self.nodes[i]));
            assert(nodes_view(nodes@) =~= prev.push(self.nodes@[i as int]@));
            assert(self.nodes_v().take(i + 1) =~= self.nodes_v().take(i as int).push(
                self.nodes_v()[i as int],
            ));
            i = i + 1;
        }
        assert(self.edges_v().take(self.edges.len() as int) =~= self.edges_v());
        assert(self.nodes_v().take(self.nodes.len() as int) =~= self.nodes_v());
        Snapshot { time, edges, nodes }
    }
}

/// The decimal digit for `d`, below ten.
pub open spec fn digit_char(d: nat) -> char {
    if d == 0 {
        '0'
    } else if d == 1 {
        '1'
    } else if d == 2 {
        '2'
    } else if d == 3 {
        '3'
    } else if d == 4 {
        '4'
    } else if d == 5 {
        '5'
    } else if d == 6 {
        '6'
    } else if d == 7 {
        '7'
    } else if d == 8 {
        '8'
    } else {
        '9'
    }
}

/// The decimal digits of `n`, most significant first, without sign or padding.
pub open spec fn decimal_of(n: nat) -> Seq<char>
    decreases n,
{
    if n < 10 {
        seq![digit_char(n)]
    } else {
        decimal_of(n / 10) + seq![digit_char(n % 10)]
    }
}

/// The one-character text of the digit `d`.
fn digit_text(d: u64) -> (r: &'static str)
    requires
        d < 10,
    ensures
        r@ == seq![digit_char(d as nat)],
{
    proof {
        reveal_strlit("0");
        reveal_strlit("1");
        reveal_strlit("2");
        reveal_strlit("3");
        reveal_strlit("4");
        reveal_strlit("5");
        reveal_strlit("6");
        reveal_strlit("7");
        reveal_strlit("8");
        reveal_strlit("9");
    }
    if d == 0 {
        "0"
    } else if d == 1 {
        "1"
    } else if d == 2 {
        "2"
    } else if d == 3 {
        "3"
    } else if d == 4 {
        "4"
    } else if d == 5 {
        "5"
    } else if d == 6 {
        "6"
    } else if d == 7 {
        "7"
    } else if d == 8 {
        "8"
    } else {
        "9"
    }
}

/// The decimal digits of `n`.
pub fn decimal(n: u64) -> (r: String)
    ensures
        r@ == decimal_of(n as nat),
    decreases n,
{
    if n < 10 {
        let r = digit_text(n).to_owned();
        assert(r@ =~= decimal_of(n as nat));
        r
    } else {
        let mut r = decimal(n / 10);
        r.append(digit_text(n % 10));
        r
    }
}

/// The parts one after another, with a comma between two neighbours.
pub open spec fn joined(parts: Seq<Seq<char>>) -> Seq<char>
    decreases parts.len(),
{
    if parts.len() == 0 {
        Seq::empty()
    } else if parts.len() == 1 {
        parts[0]
    } else {
        joined(parts.drop_last()) + ","@ + parts.last()
    }
}

/// The published record of tick `time`, around the JSON objects of the
/// edges and of the nodes: `{"time":<time>,"edges":[..],"nodes":[..]}`.
pub open spec fn record_text(time: u64, edges: Seq<Seq<char>>, nodes: Seq<Seq<char>>) -> Seq<
    char,
> {
    "{\"time\":"@ + decimal_of(time as nat) + ",\"edges\":["@ + joined(edges) + "],\"nodes\":["@
        + joined(nodes) + "]}"@
}

/// The texts as plain values.
pub open spec fn texts_view(v: Seq<String>) -> Seq<Seq<char>> {
    v.map_values(|t: String| t@)
}

/// Appends the parts to `out`, separated by commas.
fn append_joined(out: &mut String, parts: &Vec<String>)
    ensures
        final(out)@ == old(out)@ + joined(texts_view(parts@)),
{
    let ghost start = out@;
    let ghost pv = texts_view(parts@);
    let mut k: usize = 0;
    assert(pv.take(0) =~= Seq::<Seq<char>>::empty());
    assert(out@ =~= start + joined(pv.take(0)));
    while k < parts.len()
        invariant
            k <= parts.len(),
            pv == texts_view(parts@),
            out@ == start + joined(pv.take(k as int)),
        decreases parts.len() - k,
    {
        assert(pv.take(k + 1).drop_last() =~= pv.take(k as int));
        assert(pv.take(k + 1).last() == parts@[k as int]@);
        if k > 0 {
            out.append(",");
        } else {
            assert(pv.take(1) =~= seq![pv[0]]);
        }
        out.append(parts[k].as_str());
        k = k + 1;
    }
    assert(pv.take(parts.len() as int) =~= pv);
}

/// Frames the record of tick `time` around the JSON texts of the edges and
/// of the nodes, in order.
pub fn frame_record(time: u64, edges: &Vec<String>, nodes: &Vec<String>) -> (r: String)
    ensures
        r@ == record_text(time, texts_view(edges@), texts_view(nodes@)),
{
    let mut out = "{\"time\":".to_owned();
    let t = decimal(time);
    out.append(t.as_str());
    out.append(",\"edges\":[");
    append_joined(&mut out, edges);
    out.append("],\"nodes\":[");
    append_joined(&mut out, nodes);
    out.append("]}");
    out
}

} // verus!
