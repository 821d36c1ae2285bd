//! Edge-list ingestion: building a graph from the classified lines of a text
//! source. The ingestion policy is an explicit, named choice:
//!
//! - the symmetric loaders record both directions of every edge;
//! - the directed loader records only the source-to-target direction but
//!   still guarantees the target an (possibly empty) entry, and skips leading
//!   comment lines;
//! - the tolerant loaders skip lines with unparsable tokens, the strict one
//!   fails on the first such line.
//!
//! Lines with a token count other than two are header or comment material and
//! are always skipped.

use vstd::prelude::*;
use crate::graph::{
    Graph, Rep, al_add, al_ensure, al_neighbors, al_wf, lemma_al_add_gives, lemma_al_add_preserves,
    lemma_al_add_wf, lemma_al_ensure_preserves, lemma_al_ensure_wf,
};
use crate::parse::{LineClass, classify_line, line_class};

verus! {

/// A line whose tokens could not be parsed as node ids, under the strict
/// policy: `line` is the index of the offending input line.
#[derive(Clone, Copy, Debug, PartialEq, Eq, Structural)]
pub struct ParseError {
    pub line: usize,
}

/// The lines of the input as byte sequences.
pub open spec fn lines_view(lines: Seq<Vec<u8>>) -> Seq<Seq<u8>> {
    lines.map_values(|l: Vec<u8>| l@)
}

/// Recording an undirected edge: both directions, in arrival order.
pub open spec fn sym_insert(es: Rep, u: usize, v: usize) -> Rep {
    al_add(al_add(es, u, v), v, u)
}

/// The graph the symmetric policy builds: every edge line contributes both
/// adjacency directions; all other lines are skipped.
pub open spec fn sym_graph_of(lines: Seq<Seq<u8>>) -> Rep
    decreases lines.len(),
{
    if lines.len() == 0 {
        Seq::empty()
    } else {
        let prev = sym_graph_of(lines.drop_last());
        match line_class(lines.last()) {
            LineClass::EdgeLine(u, v) => sym_insert(prev, u, v),
            _ => prev,
        }
    }
}

/// A comment line: its first byte is `#`.
pub open spec fn is_comment(l: Seq<u8>) -> bool {
    l.len() >= 1 && l[0] == 35
}

/// The state of the directed, comment-skipping policy after some lines: the
/// graph so far, and whether the reader is still in the leading comment block.
pub open spec fn dir_state(lines: Seq<Seq<u8>>) -> (Rep, bool)
    decreases lines.len(),
{
    if lines.len() == 0 {
        (Seq::empty(), true)
    } else {
        let (es, header) = dir_state(lines.drop_last());
        let l = lines.last();
        if header && is_comment(l) {
            (es, true)
        } else {
            let es2 = match line_class(l) {
                LineClass::EdgeLine(u, v) => al_ensure(al_add(es, u, v), v),
                _ => es,
            };
            (es2, false)
        }
    }
}

/// The graph the directed policy builds.
pub open spec fn dir_graph_of(lines: Seq<Seq<u8>>) -> Rep {
    dir_state(lines).0
}

/// Whether a sequence of lines has a line the strict policy rejects.
pub open spec fn has_bad_line(lines: Seq<Seq<u8>>) -> bool {
    exists|i: int| 0 <= i < lines.len() && line_class(#[trigger] lines[i]) is BadToken
}

/// Builds the symmetric (undirected) graph, skipping every line that is not
/// exactly two parsable node ids.
pub fn load_symmetric_tolerant(lines: &Vec<Vec<u8>>) -> (g: Graph)
    ensures
        g.wf(),
        g.rep() == sym_graph_of(lines_view(lines@)),
{
    let ghost lv = lines_view(lines@);
    let mut g = Graph::new();
    let len = lines.len();
    proof {
        assert(lv.take(0) =~= Seq::<Seq<u8>>::empty());
    }
    for i in 0..len
        invariant
            g.wf(),
            len == lines@.len(),
            lv == lines_view(lines@),
            lv.len() == len,
            g.rep() == sym_graph_of(lv.take(i as int)),
    {
        proof {
            assert(lv.take(i + 1).drop_last() =~= lv.take(i as int));
            assert(lv.take(i + 1).last() == lv[i as int]);
            assert(lv[i as int] == lines@[i as int]@);
        }
        match classify_line(&lines[i]) {
            LineClass::EdgeLine(u, v) => {
                g.add_neighbor(u, v);
                g.add_neighbor(v, u);
            },
            _ => {},
        }
    }
    proof {
        assert(lv.take(len as int) =~= lv);
    }
    g
}

/// Builds the symmetric graph, but fails on the first line whose two tokens
/// do not both parse as node ids. Lines with any other token count are still
/// skipped as headers or comments.
pub fn load_symmetric_strict(lines: &Vec<Vec<u8>>) -> (r: Result<Graph, ParseError>)
    ensures
        match r {
            Ok(g) => {
                &&& g.wf()
                &&& g.rep() == sym_graph_of(lines_view(lines@))
                &&& !has_bad_line(lines_view(lines@))
            },
            Err(e) => {
                &&& e.line < lines@.len()
                &&& line_class(lines_view(lines@)[e.line as int]) is BadToken
                &&& forall|j: int|
                    0 <= j < e.line ==> !(line_class(
                        #[trigger] lines_view(lines@)[j],
                    ) is BadToken)
            },
        },
{
    let ghost lv = lines_view(lines@);
    let mut g = Graph::new();
    let len = lines.len();
    proof {
        assert(lv.take(0) =~= Seq::<Seq<u8>>::empty());
    }
    for i in 0..len
        invariant
            g.wf(),
            len == lines@.len(),
            lv == lines_view(lines@),
            lv.len() == len,
            g.rep() == sym_graph_of(lv.take(i as int)),
            forall|j: int| 0 <= j < i ==> !(line_class(#[trigger] lv[j]) is BadToken),
    {
        proof {
            assert(lv.take(i + 1).drop_last() =~= lv.take(i as int));
            assert(lv.take(i + 1).last() == lv[i as int]);
            assert(lv[i as int] == lines@[i as int]@);
        }
        match classify_line(&lines[i]) {
            LineClass::EdgeLine(u, v) => {
                g.add_neighbor(u, v);
                g.add_neighbor(v, u);
            },
            LineClass::Malformed => {},
            LineClass::BadToken => {
                return Err(ParseError { line: i });
            },
        }
    }
    proof {
        assert(lv.take(len as int) =~= lv);
        if has_bad_line(lv) {
            let i = choose|i: int| 0 <= i < lv.len() && line_class(#[trigger] lv[i]) is BadToken;
            assert(!(line_class(lv[i]) is BadToken));
        }
    }
    Ok(g)
}

/// Builds the directed graph: each edge line records only the source-to-target
/// direction, the target still gets an entry, leading `#` comment lines are
/// skipped, and unparsable lines are skipped.
pub fn load_directed_tolerant(lines: &Vec<Vec<u8>>) -> (g: Graph)
    ensures
        g.wf(),
        g.rep() == dir_graph_of(lines_view(lines@)),
{
    let ghost lv = lines_view(lines@);
    let mut g = Graph::new();
    let mut header = true;
    let len = lines.len();
    proof {
        assert(lv.take(0) =~= Seq::<Seq<u8>>::empty());
    }
    for i in 0..len
        invariant
            g.wf(),
            len == lines@.len(),
            lv == lines_view(lines@),
            lv.len() == len,
            g.rep() == dir_state(lv.take(i as int)).0,
            header == dir_state(lv.take(i as int)).1,
    {
        proof {
            assert(lv.take(i + 1).drop_last() =~= lv.take(i as int));
            assert(lv.take(i + 1).last() == lv[i as int]);
            assert(lv[i as int] == lines@[i as int]@);
        }
        let line = &lines[i];
        let comment = line.len() >= 1 && line[0] == 35;
        if header && comment {
        } else {
            header = false;
            match classify_line(line) {
                LineClass::EdgeLine(u, v) => {
                    g.add_neighbor(u, v);
                    g.ensure_node(v);
                },
                _ => {},
            }
        }
    }
    proof {
        assert(lv.take(len as int) =~= lv);
    }
    g
}

/// The edges denoted by a sequence of lines, in line order.
pub open spec fn edge_lines_of(lines: Seq<Seq<u8>>) -> Seq<(usize, usize)>
    decreases lines.len(),
{
    if lines.len() == 0 {
        Seq::empty()
    } else {
        edge_lines_of(lines.drop_last()) + match line_class(lines.last()) {
            LineClass::EdgeLine(u, v) => seq![(u, v)],
            _ => Seq::empty(),
        }
    }
}

/// Collects the edge list denoted by the lines, skipping lines with other
/// token counts, but failing on the first line whose two tokens do not both
/// parse as node ids.
pub fn parse_edge_lines_strict(lines: &Vec<Vec<u8>>) -> (r: Result<Vec<(usize, usize)>, ParseError>)
    ensures
        match r {
            Ok(edges) => {
                &&& edges@ == edge_lines_of(lines_view(lines@))
                &&& !has_bad_line(lines_view(lines@))
            },
            Err(e) => {
                &&& e.line < lines@.len()
                &&& line_class(lines_view(lines@)[e.line as int]) is BadToken
                &&& forall|j: int|
                    0 <= j < e.line ==> !(line_class(
                        #[trigger] lines_view(lines@)[j],
                    ) is BadToken)
            },
        },
{
    let ghost lv = lines_view(lines@);
    let mut edges: Vec<(usize, usize)> = Vec::new();
    let len = lines.len();
    proof {
        assert(lv.take(0) =~= Seq::<Seq<u8>>::empty());
    }
    for i in 0..len
        invariant
            len == lines@.len(),
            lv == lines_view(lines@),
            lv.len() == len,
            edges@ == edge_lines_of(lv.take(i as int)),
            forall|j: int| 0 <= j < i ==> !(line_class(#[trigger] lv[j]) is BadToken),
    {
        proof {
            assert(lv.take(i + 1).drop_last() =~= lv.take(i as int));
            assert(lv.take(i + 1).last() == lv[i as int]);
            assert(lv[i as int] == lines@[i as int]@);
        }
        match classify_line(&lines[i]) {
            LineClass::EdgeLine(u, v) => {
                edges.push((u, v));
                proof {
                    assert(edges@ =~= edge_lines_of(lv.take(i + 1)));
                }
            },
            LineClass::Malformed => {
                proof {
                    assert(edges@ =~= edge_lines_of(lv.take(i + 1)));
                }
            },
            LineClass::BadToken => {
                return Err(ParseError { line: i });
            },
        }
    }
    proof {
        assert(lv.take(len as int) =~= lv);
        if has_bad_line(lv) {
            let i = choose|i: int| 0 <= i < lv.len() && line_class(#[trigger] lv[i]) is BadToken;
            assert(!(line_class(lv[i]) is BadToken));
        }
    }
    Ok(edges)
}

/// The symmetric graph has unique keys.
pub proof fn lemma_sym_graph_wf(lines: Seq<Seq<u8>>)
    ensures
        al_wf(sym_graph_of(lines)),
    decreases lines.len(),
{
    if lines.len() > 0 {
        let prev = sym_graph_of(lines.drop_last());
        lemma_sym_graph_wf(lines.drop_last());
        match line_class(lines.last()) {
            LineClass::EdgeLine(u, v) => {
                lemma_al_add_wf(prev, u, v);
                lemma_al_add_wf(al_add(prev, u, v), v, u);
            },
            _ => {},
        }
    }
}

/// Symmetry of ingestion: every edge line `(u, v)` leaves `v` among the
/// neighbors of `u` and `u` among the neighbors of `v` in the loaded graph.
pub proof fn lemma_symmetric_ingestion(lines: Seq<Seq<u8>>, i: int, u: usize, v: usize)
    requires
        0 <= i < lines.len(),
        line_class(lines[i]) == LineClass::EdgeLine(u, v),
    ensures
        al_neighbors(sym_graph_of(lines), u).contains(v),
        al_neighbors(sym_graph_of(lines), v).contains(u),
    decreases lines.len(),
{
    let prev = sym_graph_of(lines.drop_last());
    lemma_sym_graph_wf(lines.drop_last());
    if i == lines.len() - 1 {
        lemma_al_add_gives(prev, u, v);
        lemma_al_add_wf(prev, u, v);
        lemma_al_add_gives(al_add(prev, u, v), v, u);
        lemma_al_add_preserves(al_add(prev, u, v), v, u, u, v);
    } else {
        assert(lines.drop_last()[i] == lines[i]);
        lemma_symmetric_ingestion(lines.drop_last(), i, u, v);
        match line_class(lines.last()) {
            LineClass::EdgeLine(a, b) => {
                lemma_al_add_preserves(prev, a, b, u, v);
                lemma_al_add_preserves(prev, a, b, v, u);
                lemma_al_add_wf(prev, a, b);
                lemma_al_add_preserves(al_add(prev, a, b), b, a, u, v);
                lemma_al_add_preserves(al_add(prev, a, b), b, a, v, u);
            },
            _ => {},
        }
    }
}

/// The directed graph has unique keys.
pub proof fn lemma_dir_graph_wf(lines: Seq<Seq<u8>>)
    ensures
        al_wf(dir_graph_of(lines)),
    decreases lines.len(),
{
    if lines.len() > 0 {
        let prev = dir_state(lines.drop_last()).0;
        lemma_dir_graph_wf(lines.drop_last());
        match line_class(lines.last()) {
            LineClass::EdgeLine(a, b) => {
                lemma_al_add_wf(prev, a, b);
                lemma_al_ensure_wf(al_add(prev, a, b), b);
            },
            _ => {},
        }
    }
}

/// Directed ingestion records the source-to-target direction of every edge
/// line past the leading comment block, and never loses it later.
pub proof fn lemma_directed_ingestion(lines: Seq<Seq<u8>>, i: int, u: usize, v: usize)
    requires
        0 <= i < lines.len(),
        line_class(lines[i]) == LineClass::EdgeLine(u, v),
        !(dir_state(lines.take(i)).1 && is_comment(lines[i])),
    ensures
        al_neighbors(dir_graph_of(lines), u).contains(v),
    decreases lines.len(),
{
    let prev = dir_state(lines.drop_last()).0;
    lemma_dir_graph_wf(lines.drop_last());
    if i == lines.len() - 1 {
        assert(lines.take(i) =~= lines.drop_last());
        lemma_al_add_gives(prev, u, v);
        lemma_al_add_wf(prev, u, v);
        lemma_al_ensure_preserves(al_add(prev, u, v), v, u, v);
    } else {
        assert(lines.drop_last()[i] == lines[i]);
        assert(lines.drop_last().take(i) =~= lines.take(i));
        lemma_directed_ingestion(lines.drop_last(), i, u, v);
        let l = lines.last();
        if dir_state(lines.drop_last()).1 && is_comment(l) {
        } else {
            match line_class(l) {
                LineClass::EdgeLine(a, b) => {
                    lemma_al_add_preserves(prev, a, b, u, v);
                    lemma_al_add_wf(prev, a, b);
                    lemma_al_ensure_preserves(al_add(prev, a, b), b, u, v);
                },
                _ => {},
            }
        }
    }
}

} // verus!
