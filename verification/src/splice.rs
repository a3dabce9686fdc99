//! One pass of the rewrite: every invocation of the pass is replaced by its
//! argument and a question mark.

use vstd::prelude::*;
use crate::error::Error;
use crate::order::{in_sequence, sort_by_lo, sort_spans};
use crate::resolve::{argument_of, lemma_argument_is_trimmed, resolve};
use crate::scan::{append_range, QUESTION};
use crate::span::Span;

verus! {

/// `head` in front of a text that was produced, or the failure as it is.
pub open spec fn prepend(head: Seq<u8>, rest: Result<Seq<u8>, Seq<u8>>) -> Result<
    Seq<u8>,
    Seq<u8>,
> {
    match rest {
        Ok(tail) => Ok(head + tail),
        Err(text) => Err(text),
    }
}

/// What replaces `buffer[last..]` when the spans from index `i` on are
/// spliced: the text up to each invocation, then its argument and a question
/// mark, and at the end the rest of the buffer. Fails with the text of the
/// first invocation that has no argument.
pub open spec fn splice_from(s: Seq<u8>, spans: Seq<Span>, i: int, last: int) -> Result<
    Seq<u8>,
    Seq<u8>,
>
    decreases spans.len() - i,
{
    if i < 0 || i >= spans.len() {
        Ok(s.subrange(last, s.len() as int))
    } else {
        match argument_of(s, spans[i]) {
            None => Err(spans[i].text(s)),
            Some((a, b)) => prepend(
                s.subrange(last, spans[i].lo as int) + s.subrange(a, b) + seq![QUESTION],
                splice_from(s, spans, i + 1, spans[i].hi as int),
            ),
        }
    }
}

/// The buffer after one pass over the given invocations, in whatever order
/// they are given.
pub open spec fn rewritten(s: Seq<u8>, spans: Seq<Span>) -> Result<Seq<u8>, Seq<u8>> {
    splice_from(s, sort_by_lo(spans), 0, 0)
}

/// A pass over no invocation leaves the buffer as it is.
pub proof fn lemma_nothing_to_rewrite(s: Seq<u8>)
    ensures
        rewritten(s, Seq::empty()) == Ok::<Seq<u8>, Seq<u8>>(s),
{
    assert(s.subrange(0, s.len() as int) =~= s);
}

/// Splicing takes at least five bytes away for each invocation: the name,
/// both delimiters, less the question mark.
pub proof fn lemma_splice_shrinks(s: Seq<u8>, spans: Seq<Span>, i: int, last: int)
    requires
        in_sequence(spans, s.len()),
        0 <= i <= spans.len(),
        0 <= last <= s.len(),
        i < spans.len() ==> last <= spans[i].lo,
        splice_from(s, spans, i, last) is Ok,
    ensures
        splice_from(s, spans, i, last)->Ok_0.len() + 5 * (spans.len() - i) <= s.len() - last,
    decreases spans.len() - i,
{
    if i < spans.len() {
        let sp = spans[i];
        assert(sp.within(s.len()));
        lemma_argument_is_trimmed(s, sp);
        if i + 1 < spans.len() {
            assert(spans[i].hi <= spans[i + 1].lo);
        }
        lemma_splice_shrinks(s, spans, i + 1, sp.hi as int);
    }
}

/// A pass that succeeds on at least one invocation makes the buffer
/// shorter, by five bytes or more for each invocation.
pub proof fn lemma_rewrite_shrinks(s: Seq<u8>, spans: Seq<Span>)
    requires
        in_sequence(sort_by_lo(spans), s.len()),
        rewritten(s, spans) is Ok,
    ensures
        rewritten(s, spans)->Ok_0.len() + 5 * spans.len() <= s.len(),
{
    crate::order::lemma_sort_by_lo(spans);
    lemma_splice_shrinks(s, sort_by_lo(spans), 0, 0);
}

/// Splicing succeeds where every span has an argument.
pub proof fn lemma_splice_succeeds(s: Seq<u8>, spans: Seq<Span>, i: int, last: int)
    requires
        0 <= i,
        forall|k: int| i <= k < spans.len() ==> argument_of(s, #[trigger] spans[k]) is Some,
    ensures
        splice_from(s, spans, i, last) is Ok,
    decreases spans.len() - i,
{
    if i < spans.len() {
        assert(argument_of(s, spans[i]) is Some);
        lemma_splice_succeeds(s, spans, i + 1, spans[i].hi as int);
    }
}

/// Replaces each of the given invocations by its argument and a question
/// mark, and keeps every other byte.
///
/// The spans are those of one pass over `buffer`; once sorted by start,
/// none may begin before the one in front of it has ended. Invocations
/// nested in an argument are left for a later pass.
pub fn rewrite(buffer: &[u8], spans: &Vec<Span>) -> (r: Result<Vec<u8>, Error>)
    requires
        in_sequence(sort_by_lo(spans@), buffer@.len()),
    ensures
        match rewritten(buffer@, spans@) {
            Ok(text) => r matches Ok(out) && out@ == text,
            Err(text) => r matches Err(Error::Bug(found)) && found@ == text,
        },
{
    let sorted: Vec<Span> = sort_spans(spans);
    let mut out: Vec<u8> = Vec::new();
    let mut last: usize = 0;
    let mut i: usize = 0;
    proof {
        let whole = splice_from(buffer@, sorted@, 0, 0);
        if whole is Ok {
            assert(Seq::<u8>::empty() + whole->Ok_0 =~= whole->Ok_0);
        }
    }
    while i < sorted.len()
        invariant
            sorted@ == sort_by_lo(spans@),
            i <= sorted@.len(),
            last <= buffer@.len(),
            in_sequence(sorted@, buffer@.len()),
            i < sorted@.len() ==> last <= sorted@[i as int].lo,
            splice_from(buffer@, sorted@, 0, 0) == prepend(
                out@,
                splice_from(buffer@, sorted@, i as int, last as int),
            ),
        decreases sorted@.len() - i,
    {
        let sp: Span = sorted[i];
        assert(sorted@[i as int].within(buffer@.len()));
        match resolve(buffer, sp) {
            Err(e) => {
                assert(argument_of(buffer@, sp) is None);
                return Err(e);
            },
            Ok(arg) => {
                let ghost before = out@;
                let ghost piece = buffer@.subrange(last as int, sp.lo as int) + buffer@.subrange(
                    arg.lo as int,
                    arg.hi as int,
                ) + seq![QUESTION];
                append_range(&mut out, buffer, last, sp.lo);
                append_range(&mut out, buffer, arg.lo, arg.hi);
                out.push(QUESTION);
                proof {
                    assert(out@ =~= before + piece);
                    let rest = splice_from(buffer@, sorted@, i + 1, sp.hi as int);
                    if rest is Ok {
                        assert((before + piece) + rest->Ok_0 =~= before + (piece + rest->Ok_0));
                    }
                }
                proof {
                    if i + 1 < sorted@.len() {
                        assert(sorted@[i as int].hi <= sorted@[i + 1].lo);
                    }
                }
                last = sp.hi;
                i = i + 1;
            },
        }
    }
    append_range(&mut out, buffer, last, buffer.len());
    Ok(out)
}

} // verus!
