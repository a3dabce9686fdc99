//! The passes of the rewrite, one after the other, until nothing is left.
//!
//! A pass sees only the outermost invocations, so a nested one takes a pass
//! for each level. Finding the invocations is the parser's work; the engine
//! says what to parse next and what follows from what the parser found.

use vstd::prelude::*;
use crate::error::Error;
use crate::order::{check_sequence, in_sequence, sort_by_lo, sort_spans};
use crate::position::{multi_line, multi_line_starts, Position};
use crate::scan::{has_trigger, mentions_name};
use crate::span::Span;
use crate::splice::{lemma_rewrite_shrinks, rewrite, rewritten};

verus! {

/// What the engine holds between two passes.
pub ghost struct State {
    /// The text as rewritten so far.
    pub buffer: Seq<u8>,
    /// Where the invocations of the first pass that span several lines
    /// start.
    pub warnings: Seq<Position>,
    /// Whether a pass has changed the text.
    pub modified: bool,
    /// Whether nothing is left to do.
    pub done: bool,
}

/// A failure, with the text of the invocation for a malformed one.
pub ghost enum Fault {
    Parse,
    Bug(Seq<u8>),
}

/// The state before the first pass. Without `try!` in the text there is
/// nothing to do.
pub open spec fn initial(source: Seq<u8>) -> State {
    State {
        buffer: source,
        warnings: Seq::empty(),
        modified: false,
        done: !mentions_name(source),
    }
}

/// The state after the parser found `spans` in the buffer of `st`.
///
/// Where it found none, the engine is done and nothing else changes.
/// Otherwise the buffer is rewritten, the places of the multi-line
/// invocations are kept if this is the first pass, and the engine is done
/// if the new text no longer holds `try!`. Fails with the invocation's text
/// where one is malformed.
pub open spec fn next(st: State, spans: Seq<Span>) -> Result<State, Seq<u8>> {
    if spans.len() == 0 {
        Ok(State { done: true, ..st })
    } else {
        match rewritten(st.buffer, spans) {
            Err(text) => Err(text),
            Ok(text) => Ok(
                State {
                    buffer: text,
                    warnings: if st.modified {
                        st.warnings
                    } else {
                        multi_line(st.buffer, spans)
                    },
                    modified: true,
                    done: !mentions_name(text),
                },
            ),
        }
    }
}

/// What the parser found in a buffer.
#[derive(Clone, Debug, PartialEq, Eq)]
pub enum Parsed {
    /// The spans of the outermost invocations, in any order.
    Spans(Vec<Span>),
    /// The buffer is not valid source text.
    Failure,
}

impl Parsed {
    /// The spans that were found; none for a failure.
    pub open spec fn found(self) -> Seq<Span> {
        match self {
            Parsed::Spans(spans) => spans@,
            Parsed::Failure => Seq::empty(),
        }
    }

    /// The spans that were found, or `None` for a failure.
    pub open spec fn answer(self) -> Option<Seq<Span>> {
        match self {
            Parsed::Spans(spans) => Some(spans@),
            Parsed::Failure => None,
        }
    }
}

/// The rewrite of one text, pass by pass.
#[derive(Clone, Debug, PartialEq, Eq)]
pub struct Engine {
    /// The text as rewritten so far: what the parser is to read next.
    pub buffer: Vec<u8>,
    /// Where the invocations of the first pass that span several lines
    /// start, by line and column in the text as it was given.
    pub warnings: Vec<Position>,
    /// Whether a pass has changed the text.
    pub modified: bool,
    /// Whether nothing is left to do.
    pub done: bool,
}

impl View for Engine {
    type V = State;

    open spec fn view(&self) -> State {
        State {
            buffer: self.buffer@,
            warnings: self.warnings@,
            modified: self.modified,
            done: self.done,
        }
    }
}

impl Engine {
    /// Takes the text to rewrite. The engine is done at once where the text
    /// does not hold `try!`.
    pub fn start(source: Vec<u8>) -> (e: Engine)
        ensures
            e@ == initial(source@),
    {
        let done: bool = !has_trigger(source.as_slice());
        Engine { buffer: source, warnings: Vec::new(), modified: false, done }
    }

    /// Whether the spans, once sorted by start, can be spliced into the
    /// current buffer: what [`Engine::feed`] asks of them.
    pub fn accepts(&self, spans: &Vec<Span>) -> (ok: bool)
        ensures
            ok == in_sequence(sort_by_lo(spans@), self@.buffer.len()),
    {
        let sorted: Vec<Span> = sort_spans(spans);
        check_sequence(&sorted, self.buffer.len())
    }

    /// Takes what the parser found in the current buffer and makes the next
    /// pass.
    ///
    /// A parse failure is handed on as `Error::Parse`, a malformed
    /// invocation as `Error::Bug` with its text. Otherwise the result is
    /// the engine in the state that [`next`] gives.
    pub fn feed(self, parsed: Parsed) -> (r: Result<Engine, Error>)
        requires
            parsed matches Parsed::Spans(spans) ==> in_sequence(
                sort_by_lo(spans@),
                self@.buffer.len(),
            ),
        ensures
            match parsed {
                Parsed::Failure => r == Err::<Engine, Error>(Error::Parse),
                Parsed::Spans(spans) => match next(self@, spans@) {
                    Ok(st) => r matches Ok(e) && e@ == st,
                    Err(text) => r matches Err(Error::Bug(found)) && found@ == text,
                },
            },
    {
        match parsed {
            Parsed::Failure => Err(Error::Parse),
            Parsed::Spans(spans) => {
                if spans.len() == 0 {
                    return Ok(
                        Engine {
                            buffer: self.buffer,
                            warnings: self.warnings,
                            modified: self.modified,
                            done: true,
                        },
                    );
                }
                match rewrite(self.buffer.as_slice(), &spans) {
                    Err(e) => Err(e),
                    Ok(text) => {
                        let warnings: Vec<Position> = if self.modified {
                            self.warnings
                        } else {
                            multi_line_starts(self.buffer.as_slice(), &spans)
                        };
                        let done: bool = !has_trigger(text.as_slice());
                        Ok(Engine { buffer: text, warnings, modified: true, done })
                    },
                }
            },
        }
    }
}

/// A text in which the parser finds no invocation comes out as it went in,
/// unmodified and without warnings, whether or not `try!` occurs in it (in
/// a comment, say, or in a string).
pub proof fn lemma_no_invocation_no_change(source: Seq<u8>)
    ensures
        !mentions_name(source) ==> initial(source).done,
        initial(source).buffer == source && !initial(source).modified,
        next(initial(source), Seq::empty()) == Ok::<State, Seq<u8>>(
            State { buffer: source, warnings: Seq::empty(), modified: false, done: true },
        ),
{
}

/// A pass that changes the text makes it shorter by at least five bytes, so
/// a text of `n` bytes is done after `n / 5` such passes at the most.
pub proof fn lemma_pass_shrinks(st: State, spans: Seq<Span>)
    requires
        spans.len() > 0,
        in_sequence(sort_by_lo(spans), st.buffer.len()),
        next(st, spans) is Ok,
    ensures
        next(st, spans)->Ok_0.buffer.len() + 5 <= st.buffer.len(),
        next(st, spans)->Ok_0.modified,
{
    lemma_rewrite_shrinks(st.buffer, spans);
}

/// The engine run to its end against a parser that finds the same spans
/// whenever it reads the same text; `None` where `fuel` passes do not
/// suffice.
pub open spec fn run(
    parser: spec_fn(Seq<u8>) -> Option<Seq<Span>>,
    st: State,
    fuel: nat,
) -> Option<Result<State, Fault>>
    decreases fuel,
{
    if st.done {
        Some(Ok(st))
    } else if fuel == 0 {
        None
    } else {
        match parser(st.buffer) {
            None => Some(Err(Fault::Parse)),
            Some(spans) => match next(st, spans) {
                Err(text) => Some(Err(Fault::Bug(text))),
                Ok(after) => run(parser, after, (fuel - 1) as nat),
            },
        }
    }
}

/// True where a state that is done has a buffer that needs no pass: `try!`
/// does not occur in it, or the parser finds no invocation in it.
pub open spec fn settled(parser: spec_fn(Seq<u8>) -> Option<Seq<Span>>, st: State) -> bool {
    st.done ==> !mentions_name(st.buffer) || parser(st.buffer) == Some(Seq::<Span>::empty())
}

/// Running keeps [`settled`], and what a run ends in is done.
pub proof fn lemma_run_settles(
    parser: spec_fn(Seq<u8>) -> Option<Seq<Span>>,
    st: State,
    fuel: nat,
)
    requires
        settled(parser, st),
        run(parser, st, fuel) matches Some(Ok(_)),
    ensures
        run(parser, st, fuel)->Some_0->Ok_0.done,
        settled(parser, run(parser, st, fuel)->Some_0->Ok_0),
    decreases fuel,
{
    if !st.done && fuel > 0 {
        let spans = parser(st.buffer)->Some_0;
        let after = next(st, spans)->Ok_0;
        if spans.len() == 0 {
            assert(spans =~= Seq::<Span>::empty());
        }
        lemma_run_settles(parser, after, (fuel - 1) as nat);
    }
}

/// Rewriting what a rewrite gave changes nothing: where a run on `source`
/// ends in a text, a run on that text ends in the same text, unmodified and
/// without warnings.
pub proof fn lemma_idempotent(
    parser: spec_fn(Seq<u8>) -> Option<Seq<Span>>,
    source: Seq<u8>,
    fuel: nat,
    again: nat,
)
    requires
        run(parser, initial(source), fuel) matches Some(Ok(_)),
        again > 0,
    ensures
        ({
            let first = run(parser, initial(source), fuel)->Some_0->Ok_0;
            run(parser, initial(first.buffer), again) == Some(
                Ok::<State, Fault>(
                    State {
                        buffer: first.buffer,
                        warnings: Seq::empty(),
                        modified: false,
                        done: true,
                    },
                ),
            )
        }),
{
    lemma_run_settles(parser, initial(source), fuel);
    let first = run(parser, initial(source), fuel)->Some_0->Ok_0;
    let st = initial(first.buffer);
    if !st.done {
        let after = next(st, Seq::<Span>::empty())->Ok_0;
        assert(run(parser, after, (again - 1) as nat) == Some(Ok::<State, Fault>(after)));
    } else {
        assert(st == State {
            buffer: first.buffer,
            warnings: Seq::<Position>::empty(),
            modified: false,
            done: true,
        });
    }
}

/// Against a parser whose spans always fit the text it read, a run on a
/// text of `n` bytes ends within `n` passes.
pub proof fn lemma_run_ends(
    parser: spec_fn(Seq<u8>) -> Option<Seq<Span>>,
    st: State,
    fuel: nat,
)
    requires
        forall|b: Seq<u8>| (#[trigger] parser(b)) matches Some(spans) ==> in_sequence(
            sort_by_lo(spans),
            b.len(),
        ),
        fuel > st.buffer.len(),
    ensures
        run(parser, st, fuel) is Some,
    decreases fuel,
{
    if !st.done {
        match parser(st.buffer) {
            None => {},
            Some(spans) => {
                if next(st, spans) is Ok {
                    let after = next(st, spans)->Ok_0;
                    if spans.len() > 0 {
                        lemma_pass_shrinks(st, spans);
                        lemma_run_ends(parser, after, (fuel - 1) as nat);
                    } else {
                        assert(after.done);
                        assert(run(parser, after, (fuel - 1) as nat) == Some(
                            Ok::<State, Fault>(after),
                        ));
                    }
                }
            },
        }
    }
}

/// True where `passes` passes, each on some spans, lead from `from` to `to`.
pub open spec fn reached(from: State, to: State, passes: nat) -> bool
    decreases passes,
{
    if passes == 0 {
        from == to
    } else {
        exists|mid: State, spans: Seq<Span>|
            reached(from, mid, (passes - 1) as nat) && #[trigger] next(mid, spans) == Ok::<
                State,
                Seq<u8>,
            >(to)
    }
}

/// True where some number of passes leads from `from` to `to`.
pub open spec fn reachable(from: State, to: State) -> bool {
    exists|passes: nat| reached(from, to, passes)
}

/// What a result of the engine stands for.
pub open spec fn outcome(r: Result<Engine, Error>) -> Result<State, Fault> {
    match r {
        Ok(e) => Ok(e@),
        Err(Error::Bug(text)) => Err(Fault::Bug(text@)),
        Err(Error::Parse) => Err(Fault::Parse),
    }
}

/// True where `collect` answers as `parser` does: whatever it returns for a
/// text is what `parser` gives for that text.
pub open spec fn agrees<F: Fn(&Vec<u8>) -> Parsed>(
    collect: F,
    parser: spec_fn(Seq<u8>) -> Option<Seq<Span>>,
) -> bool {
    forall|b: &Vec<u8>, p: Parsed| #[trigger] collect.ensures((b,), p) ==> p.answer() == parser(b@)
}

/// Replaces the `try!` invocations of `source`, nested ones too, by `?`.
///
/// `collect` is the parser: it is called on the current text before each
/// pass, and not at all where the text does not hold `try!`. The spans it
/// returns must fit the text it was given. The passes go on until the text
/// no longer holds `try!` or `collect` finds nothing; the first failure
/// ends them and nothing of the text is handed back.
///
/// Where `collect` finds the same spans whenever it reads the same text,
/// the result is that of [`run`]. In any case the result is reached by
/// passes of [`next`], and a text of `n` bytes never takes more than `n`
/// passes.
pub fn untry<F: Fn(&Vec<u8>) -> Parsed>(source: Vec<u8>, collect: F) -> (r: Result<Engine, Error>)
    requires
        forall|b: &Vec<u8>| collect.requires((b,)),
        forall|b: &Vec<u8>, p: Parsed|
            collect.ensures((b,), p) ==> (p matches Parsed::Spans(spans) ==> in_sequence(
                sort_by_lo(spans@),
                b@.len(),
            )),
    ensures
        forall|parser: spec_fn(Seq<u8>) -> Option<Seq<Span>>| #[trigger]
            agrees(collect, parser) ==> run(parser, initial(source@), source@.len() + 1) == Some(
                outcome(r),
            ),
        !mentions_name(source@) ==> (r matches Ok(e) && e@ == initial(source@)),
        r matches Ok(e) ==> e@.done,
        r matches Ok(e) ==> reachable(initial(source@), e@),
        r matches Ok(e) ==> (e@.modified || e@.buffer == source@),
        r matches Ok(e) ==> e@.buffer.len() <= source@.len(),
        r is Err ==> mentions_name(source@),
{
    let mut engine: Engine = Engine::start(source);
    let ghost mut passes: nat = 0;
    let ghost mut fuel: nat = source@.len() + 1;
    while !engine.done
        invariant
            forall|b: &Vec<u8>| collect.requires((b,)),
            forall|b: &Vec<u8>, p: Parsed|
                collect.ensures((b,), p) ==> (p matches Parsed::Spans(spans) ==> in_sequence(
                    sort_by_lo(spans@),
                    b@.len(),
                )),
            reached(initial(source@), engine@, passes),
            engine@.modified || engine@.buffer == source@,
            engine@.buffer.len() <= source@.len(),
            !engine@.done ==> mentions_name(source@),
            !mentions_name(source@) ==> engine@ == initial(source@),
            !engine@.done ==> fuel > engine@.buffer.len(),
            forall|parser: spec_fn(Seq<u8>) -> Option<Seq<Span>>| #[trigger]
                agrees(collect, parser) ==> run(parser, initial(source@), source@.len() + 1)
                    == run(parser, engine@, fuel),
        decreases
            engine@.buffer.len(),
            if engine@.done { 0int } else { 1int },
    {
        let parsed: Parsed = collect(&engine.buffer);
        let ghost before = engine@;
        let ghost found: Seq<Span> = parsed.found();
        let ghost answer: Option<Seq<Span>> = parsed.answer();
        proof {
            if parsed is Spans && found.len() > 0 && next(before, found) is Ok {
                lemma_pass_shrinks(before, found);
            }
            assert forall|parser: spec_fn(Seq<u8>) -> Option<Seq<Span>>| #[trigger]
                agrees(collect, parser) implies parser(before.buffer) == answer by {
                assert(collect.ensures((&engine.buffer,), parsed));
            }
        }
        match engine.feed(parsed) {
            Err(e) => {
                assert forall|parser: spec_fn(Seq<u8>) -> Option<Seq<Span>>| #[trigger]
                    agrees(collect, parser) implies run(parser, before, fuel) == Some(
                    outcome(Err(e)),
                ) by {
                    assert(parser(before.buffer) == answer);
                }
                return Err(e);
            },
            Ok(after) => {
                engine = after;
            },
        }
        proof {
            assert(next(before, found) == Ok::<State, Seq<u8>>(engine@));
            passes = passes + 1;
            assert(reached(initial(source@), before, (passes - 1) as nat));
            assert forall|parser: spec_fn(Seq<u8>) -> Option<Seq<Span>>| #[trigger]
                agrees(collect, parser) implies run(parser, before, fuel) == run(
                parser,
                engine@,
                (fuel - 1) as nat,
            ) by {
                assert(parser(before.buffer) == answer);
            }
            fuel = (fuel - 1) as nat;
        }
    }
    assert(reachable(initial(source@), engine@));
    Ok(engine)
}

} // verus!
