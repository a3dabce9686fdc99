//! Finds invocations without a parser, by the name and by counting
//! delimiters.
//!
//! This sees no difference between code, comments and string literals: a
//! `try!(..)` inside a string is taken for an invocation. It is meant for
//! text where a parser is not at hand.

use vstd::prelude::*;
use crate::engine::{
    initial, lemma_idempotent, lemma_pass_shrinks, next, run, Engine, Fault, Parsed, State,
};
use crate::order::{in_sequence, lemma_sequence_is_sorted, sort_by_lo};
use crate::resolve::{argument_of, lemma_skip_blanks, opener_of, skip_blanks, skip_forward};
use crate::splice::lemma_splice_succeeds;
use crate::scan::{is_blank, is_opener, name_at, opener, NAME_LEN};
use crate::span::Span;

verus! {

/// True for the two closing delimiters: `)` and `}`.
pub open spec fn is_closer(b: u8) -> bool {
    b == 41u8 || b == 125u8
}

/// Executable form of [`is_closer`].
pub fn closer(b: u8) -> (r: bool)
    ensures
        r == is_closer(b),
{
    b == 41u8 || b == 125u8
}

/// The offset behind the delimiter that closes what is open at `at`, where
/// `depth` delimiters are open there: the first closing delimiter that
/// brings the count to zero. `None` where the text ends before that.
pub open spec fn closing(s: Seq<u8>, at: int, depth: nat) -> Option<int>
    decreases s.len() - at,
{
    if at < 0 || at >= s.len() {
        None
    } else if is_opener(s[at]) {
        closing(s, at + 1, depth + 1)
    } else if is_closer(s[at]) {
        if depth <= 1 {
            Some(at + 1)
        } else {
            closing(s, at + 1, (depth - 1) as nat)
        }
    } else {
        closing(s, at + 1, depth)
    }
}

/// Where the invocation that starts at `i` ends: `try!` stands at `i`, an
/// opening delimiter follows it after blanks at the most, and the text
/// closes that delimiter.
pub open spec fn invocation_end(s: Seq<u8>, i: int) -> Option<int> {
    let d = skip_blanks(s, i + 4, s.len() as int);
    if name_at(s, i) && d < s.len() && is_opener(s[d]) {
        closing(s, d + 1, 1)
    } else {
        None
    }
}

/// The outermost invocations from offset `i` on, from left to right. What
/// stands inside an invocation is not looked at.
pub open spec fn lexical_from(s: Seq<u8>, i: int) -> Seq<Span>
    decreases s.len() - i,
{
    if i < 0 || i >= s.len() {
        Seq::empty()
    } else {
        match invocation_end(s, i) {
            Some(end) if i < end <= s.len() => seq![Span { lo: i as usize, hi: end as usize }]
                + lexical_from(s, end),
            _ => lexical_from(s, i + 1),
        }
    }
}

/// The outermost invocations of `s`.
pub open spec fn lexical(s: Seq<u8>) -> Seq<Span> {
    lexical_from(s, 0)
}

/// What [`closing`] finds lies behind `at`, within the text, and behind a
/// closing delimiter.
pub proof fn lemma_closing(s: Seq<u8>, at: int, depth: nat)
    requires
        0 <= at,
    ensures
        closing(s, at, depth) matches Some(end) ==> at < end <= s.len() && is_closer(s[end - 1]),
    decreases s.len() - at,
{
    if at < s.len() {
        if is_opener(s[at]) {
            lemma_closing(s, at + 1, depth + 1);
        } else if is_closer(s[at]) {
            if depth > 1 {
                lemma_closing(s, at + 1, (depth - 1) as nat);
            }
        } else {
            lemma_closing(s, at + 1, depth);
        }
    }
}

/// Skipping blanks stops at the same place under a nearer bound that lies
/// behind that place.
pub proof fn lemma_skip_blanks_nearer(s: Seq<u8>, from: int, near: int, to: int)
    requires
        0 <= from <= near <= to <= s.len(),
        skip_blanks(s, from, to) < near,
    ensures
        skip_blanks(s, from, near) == skip_blanks(s, from, to),
    decreases to - from,
{
    lemma_skip_blanks(s, from, to);
    if from < near && is_blank(s[from]) {
        lemma_skip_blanks_nearer(s, from + 1, near, to);
    }
}

/// An invocation that is found by name and delimiters has an argument.
pub proof fn lemma_lexical_resolves(s: Seq<u8>, i: int)
    requires
        0 <= i,
        s.len() <= usize::MAX,
        invocation_end(s, i) is Some,
    ensures
        i < invocation_end(s, i)->Some_0 <= s.len(),
        argument_of(s, Span { lo: i as usize, hi: invocation_end(s, i)->Some_0 as usize })
            is Some,
{
    let end = invocation_end(s, i)->Some_0;
    let d = skip_blanks(s, i + 4, s.len() as int);
    lemma_skip_blanks(s, i + 4, s.len() as int);
    lemma_closing(s, d + 1, 1);
    lemma_skip_blanks_nearer(s, i + 4, end, s.len() as int);
    let span = Span { lo: i as usize, hi: end as usize };
    assert(opener_of(s, span) == Some(d));
    lemma_skip_blanks(s, d + 1, end);
    let start = skip_blanks(s, d + 1, end);
    if start >= end {
        assert(is_blank(s[end - 1]));
    }
}

/// Every span that [`lexical_from`] lists has an argument and lies in the
/// text.
pub proof fn lemma_lexical_spans_resolve(s: Seq<u8>, i: int)
    requires
        0 <= i,
        s.len() <= usize::MAX,
    ensures
        forall|k: int|
            0 <= k < lexical_from(s, i).len() ==> argument_of(s, #[trigger] lexical_from(s, i)[k])
                is Some,
    decreases s.len() - i,
{
    if i < s.len() {
        match invocation_end(s, i) {
            Some(end) => {
                lemma_lexical_resolves(s, i);
                lemma_lexical_spans_resolve(s, end);
            },
            None => {
                lemma_lexical_spans_resolve(s, i + 1);
            },
        }
    }
}

/// The spans that [`lexical_from`] lists start at `i` or later, lie in
/// the text, and each ends before the next starts.
pub proof fn lemma_lexical_in_sequence(s: Seq<u8>, i: int)
    requires
        0 <= i,
        s.len() <= usize::MAX,
    ensures
        in_sequence(lexical_from(s, i), s.len()),
        forall|k: int| 0 <= k < lexical_from(s, i).len() ==> i <= (#[trigger] lexical_from(s, i)[k]).lo,
    decreases s.len() - i,
{
    if i < s.len() {
        match invocation_end(s, i) {
            Some(end) => {
                lemma_lexical_resolves(s, i);
                lemma_lexical_in_sequence(s, end);
                let head = seq![Span { lo: i as usize, hi: end as usize }];
                let tail = lexical_from(s, end);
                let all = lexical_from(s, i);
                assert(all =~= head + tail);
                assert forall|k: int| 0 <= k < all.len() implies (#[trigger] all[k]).within(
                    s.len(),
                ) && i <= all[k].lo by {
                    if k > 0 {
                        assert(all[k] == tail[k - 1]);
                    }
                }
                assert forall|a: int, b: int| 0 <= a < b < all.len() implies all[a].hi
                    <= all[b].lo by {
                    assert(all[b] == tail[b - 1]);
                    if a > 0 {
                        assert(all[a] == tail[a - 1]);
                    }
                }
            },
            None => {
                lemma_lexical_in_sequence(s, i + 1);
            },
        }
    }
}

/// Finds the delimiter that closes the one in front of `at`.
pub fn find_close(buffer: &[u8], at: usize) -> (r: Option<usize>)
    requires
        1 <= at <= buffer@.len(),
    ensures
        match closing(buffer@, at as int, 1) {
            Some(end) => r == Some(end as usize) && at < end <= buffer@.len(),
            None => r.is_none(),
        },
{
    let mut j: usize = at;
    let mut depth: usize = 1;
    while j < buffer.len()
        invariant
            1 <= at <= j <= buffer@.len(),
            1 <= depth <= j - at + 1,
            closing(buffer@, at as int, 1) == closing(buffer@, j as int, depth as nat),
        decreases buffer@.len() - j,
    {
        let b: u8 = buffer[j];
        if opener(b) {
            depth = depth + 1;
        } else if closer(b) {
            if depth == 1 {
                return Some(j + 1);
            }
            depth = depth - 1;
        }
        j = j + 1;
    }
    None
}

/// Finds where the invocation that starts at `i` ends, if one starts there.
pub fn find_end(buffer: &[u8], i: usize) -> (r: Option<usize>)
    requires
        i < buffer@.len(),
    ensures
        match invocation_end(buffer@, i as int) {
            Some(end) => r == Some(end as usize) && i < end <= buffer@.len(),
            None => r.is_none(),
        },
{
    let n: usize = buffer.len();
    if n - i < NAME_LEN {
        return None;
    }
    if !(buffer[i] == 116u8 && buffer[i + 1] == 114u8 && buffer[i + 2] == 121u8 && buffer[i + 3]
        == 33u8) {
        return None;
    }
    let d: usize = skip_forward(buffer, i + NAME_LEN, n);
    if d < n && opener(buffer[d]) {
        find_close(buffer, d + 1)
    } else {
        None
    }
}

/// Lists the outermost invocations of `buffer` from left to right.
///
/// The spans do not overlap and lie in the buffer, so they can be spliced
/// as they are.
pub fn lexical_spans(buffer: &[u8]) -> (spans: Vec<Span>)
    ensures
        spans@ == lexical(buffer@),
        in_sequence(spans@, buffer@.len()),
        sort_by_lo(spans@) == spans@,
{
    let n: usize = buffer.len();
    let mut spans: Vec<Span> = Vec::new();
    let mut i: usize = 0;
    while i < n
        invariant
            n == buffer@.len(),
            i <= n,
            lexical(buffer@) == spans@ + lexical_from(buffer@, i as int),
        decreases n - i,
    {
        let ghost before = spans@;
        match find_end(buffer, i) {
            Some(end) => {
                spans.push(Span { lo: i, hi: end });
                proof {
                    let one = seq![Span { lo: i, hi: end }];
                    assert(spans@ =~= before + one);
                    assert((before + one) + lexical_from(buffer@, end as int) =~= before + (one
                        + lexical_from(buffer@, end as int)));
                }
                i = end;
            },
            None => {
                i = i + 1;
            },
        }
    }
    proof {
        assert(spans@ + Seq::<Span>::empty() =~= spans@);
        lemma_lexical_in_sequence(buffer@, 0);
        lemma_sequence_is_sorted(spans@, buffer@.len());
    }
    spans
}

/// The parser that finds the invocations by [`lexical`]. It never fails.
pub open spec fn lexical_parser() -> spec_fn(Seq<u8>) -> Option<Seq<Span>> {
    |b: Seq<u8>| Some(lexical(b))
}

/// A pass over the invocations that [`lexical`] finds never fails.
pub proof fn lemma_lexical_pass_succeeds(st: State)
    requires
        st.buffer.len() <= usize::MAX,
    ensures
        next(st, lexical(st.buffer)) is Ok,
        sort_by_lo(lexical(st.buffer)) == lexical(st.buffer),
        in_sequence(lexical(st.buffer), st.buffer.len()),
{
    let found = lexical(st.buffer);
    lemma_lexical_in_sequence(st.buffer, 0);
    lemma_sequence_is_sorted(found, st.buffer.len());
    lemma_lexical_spans_resolve(st.buffer, 0);
    lemma_splice_succeeds(st.buffer, found, 0, 0);
}

/// Replaces the `try!` invocations of `source`, nested ones too, by `?`,
/// finding them by name and delimiters alone.
///
/// The result is that of the engine run to its end on the invocations that
/// [`lexical`] finds in each pass. No pass fails, and a text of `n` bytes
/// never takes more than `n` passes.
pub fn untry_lexical(source: Vec<u8>) -> (e: Engine)
    ensures
        run(lexical_parser(), initial(source@), source@.len() + 1) == Some(
            Ok::<State, Fault>(e@),
        ),
{
    let mut engine: Engine = Engine::start(source);
    let ghost mut fuel: nat = source@.len() + 1;
    while !engine.done
        invariant
            !engine@.done ==> fuel > engine@.buffer.len(),
            run(lexical_parser(), initial(source@), source@.len() + 1) == run(
                lexical_parser(),
                engine@,
                fuel,
            ),
        decreases
            engine@.buffer.len(),
            if engine@.done { 0int } else { 1int },
    {
        let size: usize = engine.buffer.len();
        let spans: Vec<Span> = lexical_spans(engine.buffer.as_slice());
        let ghost before = engine@;
        let ghost found = spans@;
        proof {
            assert(before.buffer.len() == size);
            assert(lexical_parser()(before.buffer) == Some(found));
            lemma_lexical_pass_succeeds(before);
            if found.len() > 0 {
                lemma_pass_shrinks(before, found);
            }
        }
        match engine.feed(Parsed::Spans(spans)) {
            Ok(after) => {
                engine = after;
            },
            Err(_) => {
                engine = vstd::pervasive::unreached();
            },
        }
        proof {
            fuel = (fuel - 1) as nat;
        }
    }
    engine
}

/// A run on the invocations that [`lexical`] finds ends, and ends well,
/// within as many passes as the text has bytes.
pub proof fn lemma_lexical_run(st: State, fuel: nat)
    requires
        st.buffer.len() <= usize::MAX,
        fuel > st.buffer.len(),
    ensures
        run(lexical_parser(), st, fuel) matches Some(Ok(_)),
    decreases fuel,
{
    if !st.done {
        let found = lexical(st.buffer);
        assert(lexical_parser()(st.buffer) == Some(found));
        lemma_lexical_pass_succeeds(st);
        let after = next(st, found)->Ok_0;
        if found.len() > 0 {
            lemma_pass_shrinks(st, found);
            lemma_lexical_run(after, (fuel - 1) as nat);
        } else {
            assert(run(lexical_parser(), after, (fuel - 1) as nat) == Some(
                Ok::<State, Fault>(after),
            ));
        }
    }
}

/// Rewriting what [`untry_lexical`] gave changes nothing: a second run on
/// its output ends at once with the same text, unmodified and without
/// warnings.
pub proof fn lemma_lexical_idempotent(source: Seq<u8>)
    requires
        source.len() <= usize::MAX,
    ensures
        run(lexical_parser(), initial(source), source.len() + 1) matches Some(Ok(first))
            && run(lexical_parser(), initial(first.buffer), first.buffer.len() + 1) == Some(
            Ok::<State, Fault>(
                State {
                    buffer: first.buffer,
                    warnings: Seq::empty(),
                    modified: false,
                    done: true,
                },
            ),
        ),
{
    lemma_lexical_run(initial(source), source.len() + 1);
    let first = run(lexical_parser(), initial(source), source.len() + 1)->Some_0->Ok_0;
    lemma_idempotent(lexical_parser(), source, source.len() + 1, first.buffer.len() + 1);
}

} // verus!
