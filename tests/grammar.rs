use dataflow_sim::model::{findEdge, ConfigError, Edge};
use dataflow_sim::parser::{header, parse_initial_line, parse_layout_line, parse_topology, Section};
use dataflow_sim::text::{parse_count, scanUntilDelimeter, trim_text};

fn s(x: &str) -> String {
    x.to_string()
}

fn lines(xs: &[&str]) -> Vec<String> {
    xs.iter().map(|x| x.to_string()).collect()
}

fn edge(from: &str, to: &str, tin: u32, tout: u32, hold: u32) -> Edge {
    Edge { from: s(from), to: s(to), tokensin: tin, tokensout: tout, currentholding: hold }
}

fn same(a: &Edge, b: &Edge) -> bool {
    a.from == b.from
        && a.to == b.to
        && a.tokensin == b.tokensin
        && a.tokensout == b.tokensout
        && a.currentholding == b.currentholding
}

#[test]
fn scan_until_delimiter_reads_fields() {
    let line = s("A:2->3:B");
    assert_eq!(scanUntilDelimeter(&line, ':', 0), (2, s("A")));
    assert_eq!(scanUntilDelimeter(&line, '-', 2), (4, s("2")));
    assert_eq!(scanUntilDelimeter(&line, ':', 5), (7, s("3")));
    assert_eq!(scanUntilDelimeter(&line, ':', 7), (7, s("B")));
}

#[test]
fn scan_until_delimiter_trims_and_handles_past_end() {
    let line = s("  ab:c  ");
    assert_eq!(scanUntilDelimeter(&line, ':', 0), (3, s("ab")));
    assert_eq!(scanUntilDelimeter(&line, ':', 9), (9, s("")));
    assert_eq!(scanUntilDelimeter(&line, 'x', 1), (1, s("b:c")));
}

#[test]
fn trim_removes_surrounding_white_space() {
    assert_eq!(trim_text(" \t a b \r\n"), "a b");
    assert_eq!(trim_text("   "), "");
    assert_eq!(trim_text("\u{3000}\u{a0}x\u{2028}\u{85}"), "x");
    assert_eq!(trim_text("\u{200b}x"), "\u{200b}x");
    assert_eq!(trim_text(""), "");
}

#[test]
fn count_parsing() {
    assert_eq!(parse_count("0"), Some(0));
    assert_eq!(parse_count("42"), Some(42));
    assert_eq!(parse_count("+7"), Some(7));
    assert_eq!(parse_count("4294967295"), Some(4294967295));
    assert_eq!(parse_count("4294967296"), None);
    assert_eq!(parse_count("99999999999999999999"), None);
    assert_eq!(parse_count(""), None);
    assert_eq!(parse_count("+"), None);
    assert_eq!(parse_count("-1"), None);
    assert_eq!(parse_count("1a"), None);
    assert_eq!(parse_count(" 1"), None);
}

#[test]
fn headers() {
    assert_eq!(header(&s("[layout]")), Some(Section::Layout));
    assert_eq!(header(&s("  [initial]  ")), Some(Section::Initial));
    assert_eq!(header(&s("[Layout]")), None);
    assert_eq!(header(&s("A:1->1:B")), None);
}

#[test]
fn layout_line_round_trip() {
    let e = parse_layout_line(&s("A:2->3:B")).unwrap();
    assert!(same(&e, &edge("A", "B", 2, 3, 0)));
}

#[test]
fn layout_line_with_white_space_and_trailing_field() {
    let e = parse_layout_line(&s("  src:10->1:dst:extra \t")).unwrap();
    assert!(same(&e, &edge("src", "dst", 10, 1, 0)));
}

#[test]
fn layout_line_with_bad_number() {
    assert!(matches!(parse_layout_line(&s("A:x->3:B")), Err(ConfigError::NotANumber)));
    assert!(matches!(parse_layout_line(&s("A:2->y:B")), Err(ConfigError::NotANumber)));
    assert!(matches!(parse_layout_line(&s("A:-1->3:B")), Err(ConfigError::NotANumber)));
}

#[test]
fn initial_line_sets_tokens() {
    let mut edges = vec![edge("A", "B", 2, 3, 0)];
    assert_eq!(parse_initial_line(&s("A->B:5"), &mut edges), Ok(()));
    assert_eq!(edges[0].currentholding, 5);
}

#[test]
fn initial_line_for_missing_edge() {
    let mut edges = vec![edge("A", "B", 2, 3, 0)];
    assert_eq!(parse_initial_line(&s("A->C:5"), &mut edges), Err(ConfigError::UnknownEdge));
    assert_eq!(edges[0].currentholding, 0);
}

#[test]
fn initial_line_with_bad_amount() {
    let mut edges = vec![edge("A", "B", 2, 3, 4)];
    assert_eq!(parse_initial_line(&s("A->B:five"), &mut edges), Err(ConfigError::NotANumber));
    assert_eq!(edges[0].currentholding, 4);
}

#[test]
fn find_edge_takes_first_match() {
    let edges = vec![edge("A", "B", 1, 1, 0), edge("B", "A", 1, 1, 0), edge("A", "B", 9, 9, 0)];
    assert_eq!(findEdge(&edges, &s("A"), &s("B")), Some(0));
    assert_eq!(findEdge(&edges, &s("B"), &s("A")), Some(1));
    assert_eq!(findEdge(&edges, &s("A"), &s("A")), None);
}

#[test]
fn topology_with_both_sections() {
    let text = lines(&[
        "ignored before any header",
        "[layout]",
        "A:2->3:B",
        "",
        "B:1->1:A",
        "[initial]",
        "A->B:5",
        "   ",
    ]);
    let edges = parse_topology(&text).unwrap();
    assert_eq!(edges.len(), 2);
    assert!(same(&edges[0], &edge("A", "B", 2, 3, 5)));
    assert!(same(&edges[1], &edge("B", "A", 1, 1, 0)));
}

#[test]
fn topology_duplicate_pairs_are_kept() {
    let text = lines(&["[layout]", "A:1->1:B", "A:2->2:B", "[initial]", "A->B:3"]);
    let edges = parse_topology(&text).unwrap();
    assert_eq!(edges.len(), 2);
    assert_eq!(edges[0].currentholding, 3);
    assert_eq!(edges[1].currentholding, 0);
}

#[test]
fn topology_errors() {
    let text = lines(&["[layout]", "A:2->3:B", "[initial]", "A->C:5"]);
    assert!(matches!(parse_topology(&text), Err(ConfigError::UnknownEdge)));
    let text = lines(&["[layout]", "A:two->3:B"]);
    assert!(matches!(parse_topology(&text), Err(ConfigError::NotANumber)));
    let text = lines(&["A:two->3:B"]);
    assert_eq!(parse_topology(&text).unwrap().len(), 0);
}

#[test]
fn error_messages_differ() {
    assert_eq!(ConfigError::UnknownEdge.message(), "non existing edge in initial section");
    assert_ne!(ConfigError::NotANumber.message(), ConfigError::UnknownEdge.message());
    assert_ne!(ConfigError::UnknownNode.message(), ConfigError::DuplicateNode.message());
}
