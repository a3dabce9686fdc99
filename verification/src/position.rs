//! Lines and columns of byte offsets.

use vstd::prelude::*;
use crate::order::{in_sequence, sort_by_lo, sort_spans};
use crate::span::Span;

verus! {

/// A place in a text: the line, counted from one, and the column, counted
/// from zero in characters.
#[derive(Clone, Copy, Debug, PartialEq, Eq)]
pub struct Position {
    pub line: usize,
    pub col: usize,
}

/// True for a byte that continues a UTF-8 character, and so starts none.
pub open spec fn is_continuation(b: u8) -> bool {
    128u8 <= b < 192u8
}

/// The number of line feeds in `s[..pos]`.
pub open spec fn line_feeds_before(s: Seq<u8>, pos: int) -> nat
    decreases pos,
{
    if pos <= 0 || pos > s.len() {
        0
    } else {
        line_feeds_before(s, pos - 1) + if s[pos - 1] == 10u8 {
            1nat
        } else {
            0nat
        }
    }
}

/// The number of characters that start between the last line feed before
/// `pos` and `pos`.
pub open spec fn column_at(s: Seq<u8>, pos: int) -> nat
    decreases pos,
{
    if pos <= 0 || pos > s.len() || s[pos - 1] == 10u8 {
        0
    } else {
        column_at(s, pos - 1) + if is_continuation(s[pos - 1]) {
            0nat
        } else {
            1nat
        }
    }
}

/// Line and column are bounded by the offset.
pub proof fn lemma_position_bounds(s: Seq<u8>, pos: int)
    ensures
        line_feeds_before(s, pos) <= if pos > 0 { pos } else { 0 },
        column_at(s, pos) <= if pos > 0 { pos } else { 0 },
    decreases pos,
{
    if 0 < pos <= s.len() {
        lemma_position_bounds(s, pos - 1);
    }
}

/// The place of the byte offset `pos` in `s`.
pub open spec fn position_of(s: Seq<u8>, pos: int) -> Position {
    Position { line: (line_feeds_before(s, pos) + 1) as usize, col: column_at(s, pos) as usize }
}

/// Finds the line and the column of the byte offset `pos`.
pub fn locate(buffer: &[u8], pos: usize) -> (at: Position)
    requires
        pos <= buffer@.len(),
        pos < usize::MAX,
    ensures
        at == position_of(buffer@, pos as int),
        at.line == line_feeds_before(buffer@, pos as int) + 1,
        at.col == column_at(buffer@, pos as int),
{
    let mut line: usize = 1;
    let mut col: usize = 0;
    let mut i: usize = 0;
    while i < pos
        invariant
            i <= pos <= buffer@.len(),
            pos < usize::MAX,
            line == line_feeds_before(buffer@, i as int) + 1,
            col == column_at(buffer@, i as int),
        decreases pos - i,
    {
        proof {
            lemma_position_bounds(buffer@, i as int);
        }
        let b: u8 = buffer[i];
        if b == 10u8 {
            line = line + 1;
            col = 0;
        } else if !(128u8 <= b && b < 192u8) {
            col = col + 1;
        }
        i = i + 1;
    }
    Position { line, col }
}

/// The places of the first `n` spans that hold a line feed, in the spans'
/// order.
pub open spec fn multi_line_among(s: Seq<u8>, spans: Seq<Span>, n: int) -> Seq<Position>
    decreases n,
{
    if n <= 0 || n > spans.len() {
        Seq::empty()
    } else if spans[n - 1].crosses_lines(s) {
        multi_line_among(s, spans, n - 1).push(position_of(s, spans[n - 1].lo as int))
    } else {
        multi_line_among(s, spans, n - 1)
    }
}

/// The places where the invocations that span several lines start, in
/// ascending order of start.
pub open spec fn multi_line(s: Seq<u8>, spans: Seq<Span>) -> Seq<Position> {
    multi_line_among(s, sort_by_lo(spans), spans.len() as int)
}

/// Lists where each invocation that spans several lines starts.
pub fn multi_line_starts(buffer: &[u8], spans: &Vec<Span>) -> (found: Vec<Position>)
    requires
        in_sequence(sort_by_lo(spans@), buffer@.len()),
    ensures
        found@ == multi_line(buffer@, spans@),
{
    let sorted: Vec<Span> = sort_spans(spans);
    let mut found: Vec<Position> = Vec::new();
    let mut i: usize = 0;
    while i < sorted.len()
        invariant
            sorted@ == sort_by_lo(spans@),
            sorted@.len() == spans@.len(),
            i <= sorted@.len(),
            in_sequence(sorted@, buffer@.len()),
            found@ == multi_line_among(buffer@, sorted@, i as int),
        decreases sorted@.len() - i,
    {
        let sp: Span = sorted[i];
        assert(sorted@[i as int].within(buffer@.len()));
        if sp.spans_lines(buffer) {
            found.push(locate(buffer, sp.lo));
        }
        i = i + 1;
    }
    found
}

} // verus!
