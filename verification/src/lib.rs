//! Rewrites `try!(expr)` invocations into the postfix form `expr?`.
//!
//! The buffer is a sequence of bytes and every position is a byte offset.
//! The bytes this crate looks at (blanks, delimiters, the macro's name) are
//! all ASCII, so they never occur inside a multi-byte UTF-8 character.

pub mod collect;
pub mod scan;
pub mod span;
pub mod resolve;
pub mod order;
pub mod splice;
pub mod position;
pub mod error;
pub mod engine;
pub mod lexical;
