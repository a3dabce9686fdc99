//! What can go wrong while a buffer is rewritten.

use vstd::prelude::*;

verus! {

/// A failure of the rewrite. Either one leaves the buffer as it was.
#[derive(Clone, Debug, PartialEq, Eq)]
pub enum Error {
    /// An invocation without the expected opening delimiter or without
    /// anything behind it. Holds the invocation's text.
    Bug(Vec<u8>),
    /// The buffer is not valid source text.
    Parse,
}

/// The bytes of `BUG: couldn't parse the delimiters of: `.
pub open spec fn bug_prefix() -> Seq<u8> {
    seq![
        66u8, 85u8, 71u8, 58u8, 32u8, 99u8, 111u8, 117u8, 108u8, 100u8, 110u8, 39u8, 116u8, 32u8,
        112u8, 97u8, 114u8, 115u8, 101u8, 32u8, 116u8, 104u8, 101u8, 32u8, 100u8, 101u8, 108u8,
        105u8, 109u8, 105u8, 116u8, 101u8, 114u8, 115u8, 32u8, 111u8, 102u8, 58u8, 32u8,
    ]
}

/// The bytes of `parse error`.
pub open spec fn parse_text() -> Seq<u8> {
    seq![112u8, 97u8, 114u8, 115u8, 101u8, 32u8, 101u8, 114u8, 114u8, 111u8, 114u8]
}

impl Error {
    /// The message of the error, as bytes.
    pub open spec fn message_spec(self) -> Seq<u8> {
        match self {
            Error::Bug(text) => bug_prefix() + text@,
            Error::Parse => parse_text(),
        }
    }

    /// The message to show for the error: for a malformed invocation a fixed
    /// prefix and then the invocation's text, for a parse failure
    /// `parse error`.
    pub fn message(&self) -> (out: Vec<u8>)
        ensures
            out@ == self.message_spec(),
    {
        match self {
            Error::Bug(text) => {
                let mut out: Vec<u8> = vec![
                    66u8, 85u8, 71u8, 58u8, 32u8, 99u8, 111u8, 117u8, 108u8, 100u8, 110u8, 39u8,
                    116u8, 32u8, 112u8, 97u8, 114u8, 115u8, 101u8, 32u8, 116u8, 104u8, 101u8,
                    32u8, 100u8, 101u8, 108u8, 105u8, 109u8, 105u8, 116u8, 101u8, 114u8, 115u8,
                    32u8, 111u8, 102u8, 58u8, 32u8,
                ];
                assert(out@ =~= bug_prefix());
                crate::scan::append_range(&mut out, text.as_slice(), 0, text.len());
                assert(text@.subrange(0, text@.len() as int) =~= text@);
                out
            },
            Error::Parse => {
                let out: Vec<u8> = vec![
                    112u8, 97u8, 114u8, 115u8, 101u8, 32u8, 101u8, 114u8, 114u8, 111u8, 114u8,
                ];
                assert(out@ =~= parse_text());
                out
            },
        }
    }
}

} // verus!
