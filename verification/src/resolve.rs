//! Finds the argument of one invocation inside the invocation's span.

use vstd::prelude::*;
use crate::error::Error;
use crate::scan::{blank, is_blank, is_opener, opener, NAME_LEN};
use crate::span::Span;

verus! {

/// The first offset at or after `from` that is `to` or holds no blank.
pub open spec fn skip_blanks(s: Seq<u8>, from: int, to: int) -> int
    decreases to - from,
{
    if 0 <= from < to && from < s.len() && is_blank(s[from]) {
        skip_blanks(s, from + 1, to)
    } else {
        from
    }
}

/// The least `end` at or above `floor` such that `[end, from)` holds blanks
/// only, going down from `from`.
pub open spec fn trim_back(s: Seq<u8>, floor: int, from: int) -> int
    decreases from - floor,
{
    if floor < from && 0 < from <= s.len() && is_blank(s[from - 1]) {
        trim_back(s, floor, from - 1)
    } else {
        from
    }
}

/// The offset of the opening delimiter of the invocation at `span`: the first
/// byte behind the name that is no blank, where it is `(` or `{`.
pub open spec fn opener_of(s: Seq<u8>, span: Span) -> Option<int> {
    let d = skip_blanks(s, span.lo + 4, span.hi as int);
    if span.hi - span.lo >= 4 && d < span.hi && is_opener(s[d]) {
        Some(d)
    } else {
        None
    }
}

/// The argument of the invocation at `span`, as a range of `s`.
///
/// Behind the name and any blanks an opening delimiter must stand, and
/// behind it at least one byte that is no blank: the argument starts there
/// (at the latest on the span's last byte, which closes the invocation). It
/// ends before the blanks that precede the span's last byte. The bytes in
/// between are kept as they are.
pub open spec fn argument_of(s: Seq<u8>, span: Span) -> Option<(int, int)> {
    match opener_of(s, span) {
        None => None,
        Some(d) => {
            let start = skip_blanks(s, d + 1, span.hi as int);
            if start < span.hi {
                Some((start, trim_back(s, start, span.hi - 1)))
            } else {
                None
            }
        },
    }
}

/// What [`skip_blanks`] returns lies in `[from, to]`, everything before it
/// is blank, and it is `to` or holds a byte that is no blank.
pub proof fn lemma_skip_blanks(s: Seq<u8>, from: int, to: int)
    requires
        0 <= from <= to <= s.len(),
    ensures
        from <= skip_blanks(s, from, to) <= to,
        forall|k: int| from <= k < skip_blanks(s, from, to) ==> is_blank(#[trigger] s[k]),
        skip_blanks(s, from, to) < to ==> !is_blank(s[skip_blanks(s, from, to)]),
    decreases to - from,
{
    if from < to && is_blank(s[from]) {
        lemma_skip_blanks(s, from + 1, to);
    }
}

/// What [`trim_back`] returns lies in `[floor, from]`, everything from it up
/// to `from` is blank, and it is `floor` or follows a byte that is no blank.
pub proof fn lemma_trim_back(s: Seq<u8>, floor: int, from: int)
    requires
        0 <= floor <= from <= s.len(),
    ensures
        floor <= trim_back(s, floor, from) <= from,
        forall|k: int| trim_back(s, floor, from) <= k < from ==> is_blank(#[trigger] s[k]),
        trim_back(s, floor, from) > floor ==> !is_blank(s[trim_back(s, floor, from) - 1]),
    decreases from - floor,
{
    if floor < from && is_blank(s[from - 1]) {
        lemma_trim_back(s, floor, from - 1);
    }
}

/// The argument is the inside of the delimiters with the blanks at both
/// ends taken off and nothing else: it lies between the opening delimiter
/// and the span's last byte, only blanks stand between the delimiter and
/// its start and between its end and the last byte, and where it is not
/// empty it starts and ends with a byte that is no blank.
pub proof fn lemma_argument_is_trimmed(s: Seq<u8>, span: Span)
    requires
        span.within(s.len()),
        argument_of(s, span) is Some,
    ensures
        ({
            let d = opener_of(s, span)->Some_0;
            let (a, b) = argument_of(s, span)->Some_0;
            &&& span.lo + 4 <= d < a <= b <= span.hi - 1
            &&& is_opener(s[d])
            &&& forall|k: int| span.lo + 4 <= k < d ==> is_blank(#[trigger] s[k])
            &&& forall|k: int| d < k < a ==> is_blank(#[trigger] s[k])
            &&& forall|k: int| b <= k < span.hi - 1 ==> is_blank(#[trigger] s[k])
            &&& !is_blank(s[a])
            &&& a < b ==> !is_blank(s[b - 1])
        }),
{
    let d = opener_of(s, span)->Some_0;
    lemma_skip_blanks(s, span.lo + 4, span.hi as int);
    lemma_skip_blanks(s, d + 1, span.hi as int);
    let a = skip_blanks(s, d + 1, span.hi as int);
    lemma_trim_back(s, a, span.hi - 1);
}

/// Moves `from` forward over blanks, up to `to`.
pub fn skip_forward(buffer: &[u8], from: usize, to: usize) -> (at: usize)
    requires
        from <= to <= buffer@.len(),
    ensures
        at == skip_blanks(buffer@, from as int, to as int),
        from <= at <= to,
{
    let mut i: usize = from;
    while i < to && blank(buffer[i])
        invariant
            from <= i <= to <= buffer@.len(),
            skip_blanks(buffer@, from as int, to as int) == skip_blanks(
                buffer@,
                i as int,
                to as int,
            ),
        decreases to - i,
    {
        i = i + 1;
    }
    i
}

/// Moves `from` backward over blanks, down to `floor`.
pub fn skip_backward(buffer: &[u8], floor: usize, from: usize) -> (at: usize)
    requires
        floor <= from <= buffer@.len(),
    ensures
        at == trim_back(buffer@, floor as int, from as int),
        floor <= at <= from,
{
    let mut i: usize = from;
    while i > floor && blank(buffer[i - 1])
        invariant
            floor <= i <= from <= buffer@.len(),
            trim_back(buffer@, floor as int, from as int) == trim_back(
                buffer@,
                floor as int,
                i as int,
            ),
        decreases i - floor,
    {
        i = i - 1;
    }
    i
}

/// Finds the argument of the invocation at `span`.
///
/// Returns the argument's range, or `Error::Bug` with the invocation's text
/// where the opening delimiter or everything behind it is missing.
pub fn resolve(buffer: &[u8], span: Span) -> (r: Result<Span, Error>)
    requires
        span.within(buffer@.len()),
    ensures
        match argument_of(buffer@, span) {
            Some((a, b)) => r matches Ok(arg) && arg.lo == a && arg.hi == b
                && span.lo <= arg.lo <= arg.hi <= span.hi,
            None => r matches Err(Error::Bug(text)) && text@ == span.text(buffer@),
        },
{
    if span.hi - span.lo >= NAME_LEN {
        let d: usize = skip_forward(buffer, span.lo + NAME_LEN, span.hi);
        if d < span.hi && opener(buffer[d]) {
            let start: usize = skip_forward(buffer, d + 1, span.hi);
            if start < span.hi {
                let end: usize = skip_backward(buffer, start, span.hi - 1);
                return Ok(Span { lo: start, hi: end });
            }
        }
    }
    let mut text: Vec<u8> = Vec::new();
    crate::scan::append_range(&mut text, buffer, span.lo, span.hi);
    assert(text@ =~= span.text(buffer@));
    Err(Error::Bug(text))
}

} // verus!
