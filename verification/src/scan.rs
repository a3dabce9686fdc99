//! The cheap test that decides whether a buffer needs to be parsed at all.

use vstd::prelude::*;

verus! {

/// Length in bytes of the macro's name together with its bang: `try!`.
pub const NAME_LEN: usize = 4;

/// The byte that replaces an invocation: `?`.
pub const QUESTION: u8 = 63;

/// True where the four bytes `t`, `r`, `y`, `!` stand at offset `i` of `s`.
pub open spec fn name_at(s: Seq<u8>, i: int) -> bool {
    &&& 0 <= i
    &&& i + 4 <= s.len()
    &&& s[i] == 116u8
    &&& s[i + 1] == 114u8
    &&& s[i + 2] == 121u8
    &&& s[i + 3] == 33u8
}

/// True where `try!` occurs anywhere in `s`, be it in code, in a comment or
/// in a string literal.
pub open spec fn mentions_name(s: Seq<u8>) -> bool {
    exists|i: int| name_at(s, i)
}

/// Whether the buffer holds the text `try!` at all. A `false` means that the
/// buffer holds no invocation; a `true` does not mean that it holds one.
pub fn has_trigger(buffer: &[u8]) -> (found: bool)
    ensures
        found == mentions_name(buffer@),
{
    let n: usize = buffer.len();
    if n < NAME_LEN {
        return false;
    }
    let mut i: usize = 0;
    while i <= n - NAME_LEN
        invariant
            n == buffer@.len(),
            n >= 4,
            i <= n,
            forall|k: int| 0 <= k < i ==> !name_at(buffer@, k),
        decreases n - i,
    {
        if buffer[i] == 116u8 && buffer[i + 1] == 114u8 && buffer[i + 2] == 121u8 && buffer[i
            + 3] == 33u8 {
            assert(name_at(buffer@, i as int));
            return true;
        }
        i = i + 1;
    }
    false
}

/// True for the three bytes that count as blank inside an invocation:
/// space, line feed and tab.
pub open spec fn is_blank(b: u8) -> bool {
    b == 32u8 || b == 10u8 || b == 9u8
}

/// Executable form of [`is_blank`].
pub fn blank(b: u8) -> (r: bool)
    ensures
        r == is_blank(b),
{
    b == 32u8 || b == 10u8 || b == 9u8
}

/// True for the two opening delimiters that an invocation may use:
/// `(` and `{`.
pub open spec fn is_opener(b: u8) -> bool {
    b == 40u8 || b == 123u8
}

/// Executable form of [`is_opener`].
pub fn opener(b: u8) -> (r: bool)
    ensures
        r == is_opener(b),
{
    b == 40u8 || b == 123u8
}

/// Appends the bytes `buffer[from..to]` to `out`.
pub fn append_range(out: &mut Vec<u8>, buffer: &[u8], from: usize, to: usize)
    requires
        from <= to <= buffer@.len(),
    ensures
        final(out)@ == old(out)@ + buffer@.subrange(from as int, to as int),
{
    let mut i: usize = from;
    while i < to
        invariant
            from <= i <= to <= buffer@.len(),
            out@ == old(out)@ + buffer@.subrange(from as int, i as int),
        decreases to - i,
    {
        out.push(buffer[i]);
        i = i + 1;
        assert(out@ =~= old(out)@ + buffer@.subrange(from as int, i as int));
    }
    assert(out@ =~= old(out)@ + buffer@.subrange(from as int, to as int));
}

} // verus!
