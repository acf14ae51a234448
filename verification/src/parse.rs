//! The text form of a graph: one edge per line, written as two vertex
//! numbers with white space between them.

use crate::edge::Edge;
use crate::scan::{
    chars_of, index_from_chars, lemma_tokens_from, parse_index, skip_spaces, token_end, tokens,
};
use vstd::prelude::*;
use vstd::slice::slice_subrange;

verus! {

/// Why a line is not an edge.
#[derive(Clone, Copy, Debug, PartialEq, Eq, Structural)]
pub enum ParseError {
    /// The line holds no token at all.
    MissingFirstVertex,
    /// The first token is not a vertex number.
    InvalidFirstVertex,
    /// The line holds one token only.
    MissingSecondVertex,
    /// The second token is not a vertex number.
    InvalidSecondVertex,
    /// The line holds more than two tokens.
    TooManyParts,
}

impl ParseError {
    /// What is wrong, in words.
    pub open spec fn message_text(self) -> Seq<char> {
        match self {
            ParseError::MissingFirstVertex => "Missing first vertex"@,
            ParseError::InvalidFirstVertex => "Failed to parse first vertex as usize"@,
            ParseError::MissingSecondVertex => "Missing second vertex"@,
            ParseError::InvalidSecondVertex => "Failed to parse second vertex as usize"@,
            ParseError::TooManyParts => "Too many parts in edge definition"@,
        }
    }

    /// What is wrong, in words.
    pub fn message(&self) -> (text: &'static str)
        ensures
            text@ == self.message_text(),
    {
        match self {
            ParseError::MissingFirstVertex => "Missing first vertex",
            ParseError::InvalidFirstVertex => "Failed to parse first vertex as usize",
            ParseError::MissingSecondVertex => "Missing second vertex",
            ParseError::InvalidSecondVertex => "Failed to parse second vertex as usize",
            ParseError::TooManyParts => "Too many parts in edge definition",
        }
    }
}

/// A line that is not an edge: its number, counted from one, and what is
/// wrong with it.
#[derive(Clone, Copy, Debug, PartialEq, Eq, Structural)]
pub struct GraphError {
    pub line: usize,
    pub kind: ParseError,
}

/// The edge that the line `s` writes, or why it writes none. What is wrong
/// with an earlier token is reported before what is wrong with a later one.
pub open spec fn parse_edge(s: Seq<char>) -> Result<Edge, ParseError> {
    let parts = tokens(s);
    if parts.len() == 0 {
        Err(ParseError::MissingFirstVertex)
    } else if parse_index(parts[0]) is None {
        Err(ParseError::InvalidFirstVertex)
    } else if parts.len() == 1 {
        Err(ParseError::MissingSecondVertex)
    } else if parse_index(parts[1]) is None {
        Err(ParseError::InvalidSecondVertex)
    } else if parts.len() > 2 {
        Err(ParseError::TooManyParts)
    } else {
        Ok(Edge { v1: parse_index(parts[0])->0, v2: parse_index(parts[1])->0 })
    }
}

/// The edge that the line `line` writes, or why it writes none.
pub fn edge_from_chars(line: &[char]) -> (edge: Result<Edge, ParseError>)
    ensures
        edge == parse_edge(line@),
{
    proof {
        assert(line@.skip(0) =~= line@);
        lemma_tokens_from(line@, 0);
    }
    let first = skip_spaces(line, 0);
    if first == line.len() {
        return Err(ParseError::MissingFirstVertex);
    }
    let first_end = token_end(line, first);
    let v1 = match index_from_chars(slice_subrange(line, first, first_end)) {
        Some(v) => v,
        None => { return Err(ParseError::InvalidFirstVertex); },
    };
    proof {
        lemma_tokens_from(line@, first_end as int);
    }
    let second = skip_spaces(line, first_end);
    if second == line.len() {
        return Err(ParseError::MissingSecondVertex);
    }
    let second_end = token_end(line, second);
    let v2 = match index_from_chars(slice_subrange(line, second, second_end)) {
        Some(v) => v,
        None => { return Err(ParseError::InvalidSecondVertex); },
    };
    proof {
        lemma_tokens_from(line@, second_end as int);
    }
    let third = skip_spaces(line, second_end);
    if third != line.len() {
        return Err(ParseError::TooManyParts);
    }
    Ok(Edge { v1, v2 })
}

/// The edge that the line `s` writes: two vertex numbers with white space
/// between them, and nothing else but white space.
pub fn string_to_edge(s: &str) -> (edge: Result<Edge, ParseError>)
    ensures
        edge == parse_edge(s@),
{
    let chars = chars_of(s);
    edge_from_chars(chars.as_slice())
}

/// The number of characters of `s` before its first line feed.
pub open spec fn line_length(s: Seq<char>) -> nat
    decreases s.len(),
{
    if s.len() > 0 && s[0] != '\n' {
        1 + line_length(s.drop_first())
    } else {
        0
    }
}

/// The lines of `s`: what stands between its line feeds. A line feed ends a
/// line, so that none follows the last one; a carriage return before it stays
/// with the line, where it is white space.
pub open spec fn lines(s: Seq<char>) -> Seq<Seq<char>>
    decreases s.len(),
    via lines_decreases
{
    if s.len() == 0 {
        Seq::empty()
    } else {
        let k = line_length(s) as int;
        seq![s.take(k)] + if k < s.len() {
            lines(s.skip(k + 1))
        } else {
            Seq::empty()
        }
    }
}

#[via_fn]
proof fn lines_decreases(s: Seq<char>) {
    lemma_line_length(s);
}

/// The first line of `s` ends within `s`, at a line feed or at the end.
pub proof fn lemma_line_length(s: Seq<char>)
    ensures
        line_length(s) <= s.len(),
        line_length(s) < s.len() ==> s[line_length(s) as int] == '\n',
    decreases s.len(),
{
    if s.len() > 0 && s[0] != '\n' {
        lemma_line_length(s.drop_first());
    }
}

/// The edges that the lines `rows` write, or the first line that writes
/// none.
pub open spec fn parse_rows(rows: Seq<Seq<char>>) -> Result<Seq<Edge>, GraphError>
    decreases rows.len(),
{
    if rows.len() == 0 {
        Ok(Seq::empty())
    } else {
        match parse_rows(rows.drop_last()) {
            Err(e) => Err(e),
            Ok(edges) => match parse_edge(rows.last()) {
                Ok(edge) => Ok(edges.push(edge)),
                Err(kind) => Err(GraphError { line: rows.len() as usize, kind }),
            },
        }
    }
}

/// The edge list that the text `s` writes, one edge to a line.
pub open spec fn parse_text(s: Seq<char>) -> Result<Seq<Edge>, GraphError> {
    parse_rows(lines(s))
}

/// The first line that is no edge is the one reported, whatever follows it.
pub proof fn lemma_parse_rows_fails(rows: Seq<Seq<char>>, k: int)
    requires
        0 <= k <= rows.len(),
        parse_rows(rows.take(k)) is Err,
    ensures
        parse_rows(rows) == parse_rows(rows.take(k)),
    decreases rows.len() - k,
{
    if k == rows.len() {
        assert(rows.take(k) =~= rows);
    } else {
        assert(rows.take(k + 1).drop_last() =~= rows.take(k));
        lemma_parse_rows_fails(rows, k + 1);
    }
}

/// Lines that are all edges give one edge each.
pub proof fn lemma_parse_rows_len(rows: Seq<Seq<char>>)
    ensures
        parse_rows(rows) is Ok ==> parse_rows(rows)->Ok_0.len() == rows.len(),
    decreases rows.len(),
{
    if rows.len() > 0 {
        lemma_parse_rows_len(rows.drop_last());
    }
}

/// The place at or after `from` of the first line feed, or the length of
/// `chars` where there is none.
fn line_end(chars: &[char], from: usize) -> (to: usize)
    requires
        from <= chars.len(),
    ensures
        to == from + line_length(chars@.skip(from as int)),
        to <= chars.len(),
{
    let mut i: usize = from;
    while i < chars.len() && chars[i] != '\n'
        invariant
            from <= i <= chars.len(),
            line_length(chars@.skip(from as int)) == (i - from) + line_length(
                chars@.skip(i as int),
            ),
        decreases chars.len() - i,
    {
        assert(chars@.skip(i as int).drop_first() =~= chars@.skip(i + 1));
        i = i + 1;
    }
    i
}

/// The edge list that `text` writes, one edge to a line, or the first line
/// that is no edge.
pub fn parse_graph(text: &str) -> (graph: Result<Vec<Edge>, GraphError>)
    ensures
        match graph {
            Ok(edges) => parse_text(text@) == Ok::<Seq<Edge>, GraphError>(edges@),
            Err(e) => parse_text(text@) == Err::<Seq<Edge>, GraphError>(e),
        },
{
    let chars = chars_of(text);
    let mut edges: Vec<Edge> = Vec::new();
    let mut start: usize = 0;
    let ghost mut done: Seq<Seq<char>> = Seq::empty();
    proof {
        assert(chars@.skip(0) =~= chars@);
        assert(done + lines(chars@) =~= lines(chars@));
    }
    while start < chars.len()
        invariant
            start <= chars.len(),
            chars@ == text@,
            lines(chars@) == done + lines(chars@.skip(start as int)),
            parse_rows(done) == Ok::<Seq<Edge>, GraphError>(edges@),
            done.len() == edges.len(),
            edges.len() <= start,
        decreases chars.len() - start,
    {
        let end = line_end(chars.as_slice(), start);
        let ghost tail = chars@.skip(start as int);
        let ghost row = chars@.subrange(start as int, end as int);
        let ghost next = if end < chars.len() {
            end + 1
        } else {
            end as int
        };
        proof {
            lemma_line_length(tail);
            assert(tail.take(end - start) =~= row);
            if end < chars.len() {
                assert(tail.skip(end - start + 1) =~= chars@.skip(end + 1));
            } else {
                assert(chars@.skip(end as int).len() == 0);
                assert(lines(chars@.skip(end as int)) =~= Seq::<Seq<char>>::empty());
            }
            assert(lines(tail) =~= seq![row] + lines(chars@.skip(next)));
            assert(done + lines(tail) =~= done.push(row) + lines(chars@.skip(next)));
            assert(done.push(row).drop_last() =~= done);
        }
        match edge_from_chars(slice_subrange(chars.as_slice(), start, end)) {
            Ok(edge) => {
                edges.push(edge);
            },
            Err(kind) => {
                proof {
                    let rows = lines(chars@);
                    assert(rows.take(done.len() as int + 1) =~= done.push(row));
                    lemma_parse_rows_fails(rows, done.len() as int + 1);
                }
                return Err(GraphError { line: edges.len() + 1, kind });
            },
        }
        proof {
            done = done.push(row);
        }
        start = if end < chars.len() {
            end + 1
        } else {
            end
        };
    }
    proof {
        assert(lines(chars@.skip(start as int)) =~= Seq::<Seq<char>>::empty());
        assert(done + Seq::<Seq<char>>::empty() =~= done);
    }
    Ok(edges)
}

} // verus!
