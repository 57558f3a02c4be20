use dataflow_sim::engine::{checkNodeInputs, fireNode, tickNodes};
use dataflow_sim::snapshot::frame_record;
use dataflow_sim::topology::node_pair;
use dataflow_sim::model::{ConfigError, Edge, Graph, Node};

fn s(x: &str) -> String {
    x.to_string()
}

fn lines(xs: &[&str]) -> Vec<String> {
    xs.iter().map(|x| x.to_string()).collect()
}

fn edge(from: &str, to: &str, tin: u32, tout: u32, hold: u32) -> Edge {
    Edge { from: s(from), to: s(to), tokensin: tin, tokensout: tout, currentholding: hold }
}

fn node(name: &str, firing: u32, time: u32) -> Node {
    Node { name: s(name), firing, time, pending: false }
}

fn find<'a>(g: &'a Graph, name: &str) -> &'a Node {
    g.nodes.iter().find(|n| n.name == name).unwrap()
}

fn holding(g: &Graph, from: &str, to: &str) -> u32 {
    g.edges.iter().find(|e| e.from == from && e.to == to).unwrap().currentholding
}

fn total(g: &Graph) -> u64 {
    g.edges.iter().map(|e| e.currentholding as u64).sum()
}

#[test]
fn check_inputs() {
    let edges = vec![edge("A", "B", 0, 2, 2), edge("C", "B", 0, 1, 0), edge("B", "C", 5, 5, 0)];
    assert!(!checkNodeInputs(&edges, &node("B", 0, 3)));
    assert!(!checkNodeInputs(&edges, &node("C", 0, 3)));
    assert!(checkNodeInputs(&edges, &node("A", 0, 1)));
    let ready = vec![edge("A", "B", 0, 2, 2)];
    assert!(checkNodeInputs(&ready, &node("B", 0, 3)));
    assert!(!checkNodeInputs(&ready, &node("B", 1, 3)));
}

#[test]
fn fire_node_takes_inputs() {
    let mut edges = vec![edge("A", "B", 4, 2, 3), edge("B", "C", 7, 1, 1)];
    let mut n = node("B", 0, 3);
    fireNode(&mut edges, &mut n);
    assert_eq!(edges[0].currentholding, 1);
    assert_eq!(edges[1].currentholding, 1);
    assert_eq!(n.firing, 3);
}

#[test]
fn fire_node_leaves_firing_node() {
    let mut edges = vec![edge("A", "B", 4, 2, 3)];
    let mut n = node("B", 2, 3);
    fireNode(&mut edges, &mut n);
    assert_eq!(edges[0].currentholding, 3);
    assert_eq!(n.firing, 2);
}

#[test]
fn tick_nodes_counts_down_and_produces() {
    let mut nodes = vec![node("A", 1, 2), node("B", 3, 3), node("C", 0, 1)];
    let mut edges = vec![edge("A", "B", 4, 1, 1), edge("B", "C", 5, 1, 0), edge("C", "A", 6, 1, 0)];
    tickNodes(&mut nodes, &mut edges, 1);
    assert_eq!(nodes[0].firing, 0);
    assert_eq!(nodes[1].firing, 2);
    assert_eq!(nodes[2].firing, 0);
    assert_eq!(edges[0].currentholding, 5);
    assert_eq!(edges[1].currentholding, 0);
    assert_eq!(edges[2].currentholding, 0);
}

#[test]
fn tick_nodes_does_not_go_below_zero() {
    let mut nodes = vec![node("A", 2, 5)];
    let mut edges = vec![edge("A", "B", 3, 1, 0)];
    tickNodes(&mut nodes, &mut edges, 7);
    assert_eq!(nodes[0].firing, 0);
    assert_eq!(edges[0].currentholding, 3);
}

fn scenario() -> Graph {
    let pairs = vec![(s("A"), 0), (s("B"), 2)];
    let text = lines(&["[layout]", "A:0->1:B", "B:4->0:A", "[initial]", "A->B:1"]);
    Graph::build(&pairs, &text).unwrap()
}

#[test]
fn firing_scenario() {
    let mut g = scenario();
    assert!(g.can_advance(1));
    g.advance(1);
    assert_eq!(holding(&g, "A", "B"), 0);
    assert_eq!(find(&g, "B").firing, 2);
    g.advance(1);
    assert_eq!(find(&g, "B").firing, 1);
    assert_eq!(holding(&g, "B", "A"), 0);
    g.advance(1);
    assert_eq!(find(&g, "B").firing, 0);
    assert_eq!(holding(&g, "B", "A"), 4);
}

#[test]
fn build_errors() {
    let text = lines(&["[layout]", "A:1->1:B"]);
    let dup = vec![(s("A"), 1), (s("A"), 2)];
    assert!(matches!(Graph::build(&dup, &text), Err(ConfigError::DuplicateNode)));
    let missing = vec![(s("A"), 1)];
    assert!(matches!(Graph::build(&missing, &text), Err(ConfigError::UnknownNode)));
    let both = vec![(s("A"), 1), (s("B"), 1)];
    let bad = lines(&["[layout]", "A:1->1:B", "[initial]", "B->A:1"]);
    assert!(matches!(Graph::build(&both, &bad), Err(ConfigError::UnknownEdge)));
    let g = Graph::build(&both, &text).unwrap();
    assert_eq!(g.nodes.len(), 2);
    assert_eq!(g.nodes[0].firing, 0);
    assert_eq!(g.nodes[1].time, 1);
}

#[test]
fn eligibility_is_a_snapshot() {
    // A and B both read the edge into them from the same state; firing A
    // first does not stop B, and B's firing does not feed A in this step.
    let pairs = vec![(s("A"), 1), (s("B"), 1), (s("S"), 5)];
    let text = lines(&["[layout]", "S:0->1:A", "S:0->1:B", "A:1->0:B", "[initial]", "S->A:1", "S->B:1"]);
    let mut g = Graph::build(&pairs, &text).unwrap();
    g.advance(1);
    assert_eq!(find(&g, "A").firing, 1);
    assert_eq!(find(&g, "B").firing, 1);
    assert_eq!(holding(&g, "S", "A"), 0);
    assert_eq!(holding(&g, "S", "B"), 0);
    assert_eq!(holding(&g, "A", "B"), 0);
    g.advance(1);
    assert_eq!(holding(&g, "A", "B"), 1);
}

#[test]
fn order_of_nodes_does_not_matter() {
    let text = lines(&["[layout]", "S:2->1:A", "S:3->1:B", "A:1->1:S", "B:1->1:S", "[initial]", "S->A:1", "S->B:1", "A->S:1"]);
    let one = vec![(s("S"), 1), (s("A"), 2), (s("B"), 1)];
    let two = vec![(s("B"), 1), (s("A"), 2), (s("S"), 1)];
    let mut g1 = Graph::build(&one, &text).unwrap();
    let mut g2 = Graph::build(&two, &text).unwrap();
    for _ in 0..6 {
        g1.advance(1);
        g2.advance(1);
        for e in &g1.edges {
            assert_eq!(e.currentholding, holding(&g2, &e.from, &e.to));
        }
        for n in &g1.nodes {
            assert_eq!(n.firing, find(&g2, &n.name).firing);
        }
    }
}

#[test]
fn conservation_on_one_step() {
    // S completes now (produces 2 + 3); A and B fire (consume 1 + 1).
    let pairs = vec![(s("S"), 1), (s("A"), 2), (s("B"), 2)];
    let text = lines(&["[layout]", "S:2->1:A", "S:3->1:B", "[initial]", "S->A:1", "S->B:4"]);
    let mut g = Graph::build(&pairs, &text).unwrap();
    g.nodes[0].firing = 1;
    let before = total(&g);
    g.advance(1);
    assert_eq!(total(&g), before + 5 - 2);
    assert_eq!(holding(&g, "S", "A"), 2);
    assert_eq!(holding(&g, "S", "B"), 6);
}

#[test]
fn tokens_follow_production_and_consumption() {
    // P (length 1) adds one token per completion; C (length 3) takes two.
    let pairs = vec![(s("P"), 1), (s("C"), 3)];
    let text = lines(&["[layout]", "P:1->2:C", "[initial]", "P->C:1"]);
    let mut g = Graph::build(&pairs, &text).unwrap();
    let expected: [u32; 8] = [1, 0, 1, 2, 1, 2, 3, 2];
    for want in expected {
        assert!(g.can_advance(1));
        g.advance(1);
        assert_eq!(holding(&g, "P", "C"), want);
        for n in &g.nodes {
            assert!(n.firing <= n.time);
        }
    }
}

#[test]
fn starved_node_never_fires() {
    // P needs two tokens from C, which never produces any.
    let pairs = vec![(s("P"), 1), (s("C"), 3)];
    let text = lines(&["[layout]", "P:1->0:C", "C:0->2:P", "C:0->0:C", "[initial]", "P->C:0"]);
    let mut g = Graph::build(&pairs, &text).unwrap();
    g.advance(1);
    assert_eq!(find(&g, "C").firing, 3);
    for _ in 0..6 {
        g.advance(1);
        assert_eq!(find(&g, "P").firing, 0);
        for e in &g.edges {
            assert_eq!(e.currentholding, 0);
        }
    }
}

#[test]
fn zero_length_firing_produces_at_next_tick() {
    let pairs = vec![(s("A"), 0), (s("B"), 5)];
    let text = lines(&["[layout]", "A:3->9:B"]);
    let mut g = Graph::build(&pairs, &text).unwrap();
    g.advance(1);
    assert_eq!(holding(&g, "A", "B"), 0);
    assert_eq!(find(&g, "A").firing, 0);
    assert!(find(&g, "A").pending);
    g.advance(1);
    assert_eq!(holding(&g, "A", "B"), 3);
    assert!(find(&g, "A").pending);
    g.advance(1);
    assert_eq!(holding(&g, "A", "B"), 6);
}

#[test]
fn tick_completes_pending_zero_length_firing() {
    let mut nodes = vec![node("A", 0, 0)];
    let mut edges = vec![edge("A", "B", 3, 1, 0)];
    fireNode(&mut edges, &mut nodes[0]);
    assert!(nodes[0].pending);
    assert!(!checkNodeInputs(&edges, &nodes[0]));
    tickNodes(&mut nodes, &mut edges, 1);
    assert!(!nodes[0].pending);
    assert_eq!(edges[0].currentholding, 3);
    tickNodes(&mut nodes, &mut edges, 1);
    assert_eq!(edges[0].currentholding, 3);
}

#[test]
fn cannot_advance_past_overflow() {
    let pairs = vec![(s("A"), 1), (s("B"), 1)];
    let text = lines(&["[layout]", "A:2->5:B", "[initial]", "A->B:4294967294"]);
    let mut g = Graph::build(&pairs, &text).unwrap();
    assert!(g.can_advance(1));
    g.nodes[0].firing = 1;
    assert!(!g.can_advance(1));
    g.nodes[0].firing = 0;
    assert!(g.can_advance(1));
}

#[test]
fn snapshot_copies_state() {
    let mut g = scenario();
    g.advance(1);
    let snap = g.snapshot(7);
    assert_eq!(snap.time, 7);
    assert_eq!(snap.edges.len(), 2);
    assert_eq!(snap.nodes.len(), 2);
    assert_eq!(snap.edges[0].from, "A");
    assert_eq!(snap.edges[0].currentholding, 0);
    assert_eq!(snap.nodes[1].name, "B");
    assert_eq!(snap.nodes[1].firing, 2);
    assert_eq!(snap.nodes[1].time, 2);
}

#[test]
fn node_pairs_from_configuration() {
    assert_eq!(node_pair(Some(s("A")), Some(3)), Ok((s("A"), 3)));
    assert_eq!(node_pair(Some(s("A")), Some(4294967295)), Ok((s("A"), 4294967295)));
    assert_eq!(node_pair(Some(s("A")), Some(4294967296)), Err(ConfigError::BadNodeConfig));
    assert_eq!(node_pair(Some(s("A")), Some(-1)), Err(ConfigError::BadNodeConfig));
    assert_eq!(node_pair(None, Some(1)), Err(ConfigError::BadNodeConfig));
    assert_eq!(node_pair(Some(s("A")), None), Err(ConfigError::BadNodeConfig));
}

#[test]
fn record_framing() {
    let edges = vec![s("{\"from\":\"A\"}"), s("{\"from\":\"B\"}")];
    let nodes = vec![s("{\"name\":\"A\"}")];
    assert_eq!(
        frame_record(1234, &edges, &nodes),
        "{\"time\":1234,\"edges\":[{\"from\":\"A\"},{\"from\":\"B\"}],\"nodes\":[{\"name\":\"A\"}]}"
    );
    assert_eq!(frame_record(0, &vec![], &vec![]), "{\"time\":0,\"edges\":[],\"nodes\":[]}");
    assert_eq!(frame_record(10, &vec![], &vec![]), "{\"time\":10,\"edges\":[],\"nodes\":[]}");
    assert_eq!(frame_record(907, &vec![], &vec![]), "{\"time\":907,\"edges\":[],\"nodes\":[]}");
    assert_eq!(
        frame_record(18446744073709551615, &vec![], &nodes),
        "{\"time\":18446744073709551615,\"edges\":[],\"nodes\":[{\"name\":\"A\"}]}"
    );
}
