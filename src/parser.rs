//! The line-oriented topology grammar: a `[layout]` section of edges and an
//! `[initial]` section of starting token counts.
use vstd::prelude::*;
use crate::model::{Edge, EdgeV, ConfigError, first_edge, findEdge, edges_view};
use crate::text::{trimmed, scan, count_of, scanUntilDelimeter, parse_count, trim_text, lemma_scan_bound};

verus! {

/// Which part of the topology text is being read.
#[derive(PartialEq, Eq, Structural, Clone, Copy, Debug)]
pub enum Section {
    /// Before the first header: lines are ignored.
    Scanning,
    /// Lines are edges, `<from>:<tokensin>-><tokensout>:<to>`.
    Layout,
    /// Lines are starting tokens, `<from>-><to>:<amount>`.
    Initial,
}

/// The section that a trimmed header line opens, if it is one.
pub open spec fn header_of(t: Seq<char>) -> Option<Section> {
    if t == "[layout]"@ {
        Some(Section::Layout)
    } else if t == "[initial]"@ {
        Some(Section::Initial)
    } else {
        None
    }
}

/// The edge that the trimmed layout line `t` describes, read left to right:
/// up to `:` the source, up to `-` the tokens produced, past `>` up to `:`
/// the tokens consumed, then up to a further `:` or the end the target.
pub open spec fn layout_edge(t: Seq<char>) -> Option<EdgeV> {
    let a = scan(t, ':', 0);
    let b = scan(t, '-', a.0);
    let c = scan(t, ':', b.0 + 1);
    let d = scan(t, ':', c.0);
    match (count_of(b.1), count_of(c.1)) {
        (Some(p), Some(q)) => Some(
            EdgeV { from: a.1, to: d.1, tokensin: p, tokensout: q, currentholding: 0 },
        ),
        _ => None,
    }
}

/// The source, target and amount texts of the trimmed initial line `t`.
pub open spec fn initial_parts(t: Seq<char>) -> (Seq<char>, Seq<char>, Seq<char>) {
    let a = scan(t, '-', 0);
    let b = scan(t, ':', a.0 + 1);
    let c = scan(t, ':', b.0);
    (a.1, b.1, c.1)
}

/// The edges after the trimmed initial line `t` set the tokens of the first
/// edge that it names.
pub open spec fn apply_initial(edges: Seq<EdgeV>, t: Seq<char>) -> Result<Seq<EdgeV>, ConfigError> {
    let p = initial_parts(t);
    match first_edge(edges, p.0, p.1) {
        None => Err(ConfigError::UnknownEdge),
        Some(i) => match count_of(p.2) {
            None => Err(ConfigError::NotANumber),
            Some(v) => Ok(edges.update(i, EdgeV { currentholding: v, ..edges[i] })),
        },
    }
}

/// One line read in section `sec` with edges `edges`: headers switch the
/// section; blank lines and lines before the first header are skipped.
pub open spec fn step_line(sec: Section, edges: Seq<EdgeV>, line: Seq<char>) -> Result<
    (Section, Seq<EdgeV>),
    ConfigError,
> {
    let t = trimmed(line);
    match header_of(t) {
        Some(h) => Ok((h, edges)),
        None => if t.len() == 0 {
            Ok((sec, edges))
        } else {
            match sec {
                Section::Scanning => Ok((sec, edges)),
                Section::Layout => match layout_edge(t) {
                    Some(e) => Ok((sec, edges.push(e))),
                    None => Err(ConfigError::NotANumber),
                },
                Section::Initial => match apply_initial(edges, t) {
                    Ok(es) => Ok((sec, es)),
                    Err(e) => Err(e),
                },
            }
        },
    }
}

/// The section and edges after reading `lines` in order from the start.
pub open spec fn parse_lines(lines: Seq<Seq<char>>) -> Result<(Section, Seq<EdgeV>), ConfigError>
    decreases lines.len(),
{
    if lines.len() == 0 {
        Ok((Section::Scanning, Seq::empty()))
    } else {
        match parse_lines(lines.drop_last()) {
            Ok(st) => step_line(st.0, st.1, lines.last()),
            Err(e) => Err(e),
        }
    }
}

/// The section that a line opens, if it is a header.
pub fn header(line: &String) -> (r: Option<Section>)
    ensures
        r == header_of(trimmed(line@)),
{
    let t = trim_text(line.as_str()).to_owned();
    if t == "[layout]".to_owned() {
        Some(Section::Layout)
    } else if t == "[initial]".to_owned() {
        Some(Section::Initial)
    } else {
        None
    }
}

/// Reads a layout line `<from>:<tokensin>-><tokensout>:<to>` into an edge
/// with no tokens.
pub fn parse_layout_line(line: &String) -> (r: Result<Edge, ConfigError>)
    requires
        line@.len() < u32::MAX,
    ensures
        r is Err <==> layout_edge(trimmed(line@)) is None,
        r is Err ==> r == Err::<Edge, ConfigError>(ConfigError::NotANumber),
        r matches Ok(e) ==> layout_edge(trimmed(line@)) == Some(e@),
{
    proof {
        crate::text::lemma_trimmed_len(line@);
    }
    let ghost t = trimmed(line@);
    let (i1, from) = scanUntilDelimeter(line, ':', 0);
    proof {
        lemma_scan_bound(t, ':', 0);
    }
    let (i2, produce) = scanUntilDelimeter(line, '-', i1);
    proof {
        lemma_scan_bound(t, '-', i1 as int);
    }
    let (i3, consume) = scanUntilDelimeter(line, ':', i2 + 1);
    let (_i4, to) = scanUntilDelimeter(line, ':', i3);
    let tokensin = match parse_count(produce.as_str()) {
        Some(v) => v,
        None => return Err(ConfigError::NotANumber),
    };
    let tokensout = match parse_count(consume.as_str()) {
        Some(v) => v,
        None => return Err(ConfigError::NotANumber),
    };
    Ok(Edge { from, to, tokensin, tokensout, currentholding: 0 })
}

/// Reads an initial line `<from>-><to>:<amount>` and sets the tokens of the
/// first edge from `from` to `to` to `amount`. On an error the edges stay.
pub fn parse_initial_line(line: &String, edges: &mut Vec<Edge>) -> (r: Result<(), ConfigError>)
    requires
        line@.len() < u32::MAX,
    ensures
        match apply_initial(edges_view(old(edges)@), trimmed(line@)) {
            Ok(es) => r is Ok && edges_view(final(edges)@) == es,
            Err(err) => r == Err::<(), ConfigError>(err) && final(edges)@ == old(edges)@,
        },
{
    let ghost t = trimmed(line@);
    proof {
        crate::text::lemma_trimmed_len(line@);
    }
    let (i1, from) = scanUntilDelimeter(line, '-', 0);
    proof {
        lemma_scan_bound(t, '-', 0);
    }
    let (i2, to) = scanUntilDelimeter(line, ':', i1 + 1);
    let found = findEdge(edges, &from, &to);
    let i = match found {
        Some(i) => i,
        None => return Err(ConfigError::UnknownEdge),
    };
    let (_i3, amount) = scanUntilDelimeter(line, ':', i2);
    let v = match parse_count(amount.as_str()) {
        Some(v) => v,
        None => return Err(ConfigError::NotANumber),
    };
    let ghost before = edges_view(edges@);
    edges[i].currentholding = v;
    assert(edges_view(edges@) =~= before.update(
        i as int,
        EdgeV { currentholding: v, ..before[i as int] },
    ));
    Ok(())
}

/// Reads topology lines in order, from scanning mode: `[layout]` and
/// `[initial]` switch sections, blank lines and lines before the first
/// header are skipped. Gives the edges, in layout order, with their tokens.
pub fn parse_topology(lines: &Vec<String>) -> (r: Result<Vec<Edge>, ConfigError>)
    requires
        forall|k: int| 0 <= k < lines.len() ==> (#[trigger] lines@[k])@.len() < u32::MAX,
    ensures
        match parse_lines(lines@.map_values(|l: String| l@)) {
            Ok(st) => r matches Ok(es) && edges_view(es@) == st.1,
            Err(err) => r == Err::<Vec<Edge>, ConfigError>(err),
        },
{
    let ghost lv = lines@.map_values(|l: String| l@);
    let mut sec = Section::Scanning;
    let mut edges: Vec<Edge> = Vec::new();
    let mut k: usize = 0;
    assert(lv.subrange(0, 0).len() == 0);
    assert(edges_view(edges@) =~= Seq::<EdgeV>::empty());
    while k < lines.len()
        invariant
            k <= lines.len(),
            lv == lines@.map_values(|l: String| l@),
            forall|m: int| 0 <= m < lines.len() ==> (#[trigger] lines@[m])@.len() < u32::MAX,
            parse_lines(lv.subrange(0, k as int)) == Ok::<(Section, Seq<EdgeV>), ConfigError>(
                (sec, edges_view(edges@)),
            ),
        decreases lines.len() - k,
    {
        let line = &lines[k];
        assert(lv.subrange(0, k + 1).drop_last() =~= lv.subrange(0, k as int));
        assert(lv.subrange(0, k + 1).last() == line@);
        let ghost t = trimmed(line@);
        match header(line) {
            Some(h) => {
                sec = h;
            },
            None => {
                let blank = trim_text(line.as_str()).unicode_len() == 0;
                if !blank {
                    match sec {
                        Section::Scanning => {},
                        Section::Layout => {
                            let e = match parse_layout_line(line) {
                                Ok(e) => e,
                                Err(err) => {
                                    assert(parse_lines(lv.subrange(0, k + 1)) == Err::<
                                        (Section, Seq<EdgeV>),
                                        ConfigError,
                                    >(err));
                                    proof {
                                        lemma_error_sticks(lv, k + 1);
                                    }
                                    return Err(err);
                                },
                            };
                            let ghost before = edges_view(edges@);
                            edges.push(e);
                            assert(edges_view(edges@) =~= before.push(e@));
                        },
                        Section::Initial => {
                            match parse_initial_line(line, &mut edges) {
                                Ok(()) => {},
                                Err(err) => {
                                    proof {
                                        lemma_error_sticks(lv, k + 1);
                                    }
                                    return Err(err);
                                },
                            }
                        },
                    }
                }
            },
        }
        k = k + 1;
    }
    assert(lv.subrange(0, lines.len() as int) =~= lv);
    Ok(edges)
}

/// Once a prefix of the lines fails, reading all of them fails the same way.
proof fn lemma_error_sticks(lv: Seq<Seq<char>>, k: int)
    requires
        0 <= k <= lv.len(),
        parse_lines(lv.subrange(0, k)) is Err,
    ensures
        parse_lines(lv) == parse_lines(lv.subrange(0, k)),
    decreases lv.len() - k,
{
    if k < lv.len() {
        assert(lv.subrange(0, k + 1).drop_last() =~= lv.subrange(0, k));
        lemma_error_sticks(lv, k + 1);
    } else {
        assert(lv.subrange(0, k) =~= lv);
    }
}

} // verus!
