//! Picks the invocations of `try!` among the macro invocations of a parsed
//! file.

use vstd::prelude::*;
use crate::span::Span;

verus! {

/// One macro invocation as the parser reports it.
#[derive(Clone, Debug, PartialEq, Eq)]
pub struct MacroUse {
    /// The segments of the macro's path: `a::b!` has two.
    pub path: Vec<Vec<u8>>,
    /// The name of the file that the invocation stands in.
    pub file: Vec<u8>,
    /// From the first byte of the path to the closing delimiter.
    pub span: Span,
}

/// The bytes of the macro's name, `try`.
pub open spec fn macro_name() -> Seq<u8> {
    seq![116u8, 114u8, 121u8]
}

impl MacroUse {
    /// True for an invocation of plain `try`, without a path in front of
    /// it, that stands in the file `current` itself and not in a file that
    /// the parser read along with it.
    pub open spec fn is_invocation(self, current: Seq<u8>) -> bool {
        &&& self.path@.len() == 1
        &&& self.path@[0]@ == macro_name()
        &&& self.file@ == current
    }

    /// Whether this is an invocation of `try!` in the file `current`.
    pub fn names_try(&self, current: &[u8]) -> (r: bool)
        ensures
            r == self.is_invocation(current@),
    {
        if self.path.len() != 1 {
            return false;
        }
        let name: &Vec<u8> = &self.path[0];
        let is_try: bool = name.len() == 3 && name[0] == 116u8 && name[1] == 114u8 && name[2]
            == 121u8;
        if !is_try {
            assert(!(name@ =~= macro_name()));
            return false;
        }
        assert(name@ =~= macro_name());
        same_bytes(self.file.as_slice(), current)
    }
}

/// Whether two byte strings are equal.
pub fn same_bytes(a: &[u8], b: &[u8]) -> (r: bool)
    ensures
        r == (a@ == b@),
{
    if a.len() != b.len() {
        return false;
    }
    let mut i: usize = 0;
    while i < a.len()
        invariant
            a@.len() == b@.len(),
            i <= a@.len(),
            forall|k: int| 0 <= k < i ==> a@[k] == b@[k],
        decreases a@.len() - i,
    {
        if a[i] != b[i] {
            return false;
        }
        i = i + 1;
    }
    assert(a@ =~= b@);
    true
}

/// The spans of the invocations of `try!` among the first `n` macro
/// invocations, in the order in which they were reported.
pub open spec fn selected(uses: Seq<MacroUse>, current: Seq<u8>, n: int) -> Seq<Span>
    decreases n,
{
    if n <= 0 || n > uses.len() {
        Seq::empty()
    } else if uses[n - 1].is_invocation(current) {
        selected(uses, current, n - 1).push(uses[n - 1].span)
    } else {
        selected(uses, current, n - 1)
    }
}

/// Collects the spans of the invocations of `try!` in the file `current`
/// from everything the parser reported, in the order of the report.
pub fn select(uses: &Vec<MacroUse>, current: &[u8]) -> (spans: Vec<Span>)
    ensures
        spans@ == selected(uses@, current@, uses@.len() as int),
{
    let mut spans: Vec<Span> = Vec::new();
    let mut i: usize = 0;
    while i < uses.len()
        invariant
            i <= uses@.len(),
            spans@ == selected(uses@, current@, i as int),
        decreases uses@.len() - i,
    {
        if uses[i].names_try(current) {
            spans.push(uses[i].span);
        }
        i = i + 1;
    }
    spans
}

} // verus!
