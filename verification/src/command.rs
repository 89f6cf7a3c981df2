//! A minimal parser-combinator algebra: `ParserBase` (parse one value,
//! possibly failing, advancing the cursor), `Or` (ordered alternative),
//! `Exec` (terminal wrapper binding a fully-applied parse to a handler),
//! and the two-variant sum type `Either`.

use vstd::prelude::*;
use crate::input::Input;

pub mod exec;
pub mod or;

verus! {

/// Tagged union carrying the result of whichever side of an alternative
/// succeeded.
pub enum Either<A, B> {
    A(A),
    B(B),
}

/// A parser: parses one value from the cursor, possibly failing.
pub trait ParserBase: Sized {
    /// The value a successful parse extracts.
    type Extract;

    /// What `parse` extracts and what remains of the input afterwards, as a
    /// function of the remaining input bytes; `None` on parse failure. The
    /// default leaves it unspecified; an implementation may refine it.
    open spec fn parse_spec(&self, input: Seq<u8>) -> Option<(Self::Extract, Seq<u8>)> {
        arbitrary()
    }

    /// Parses one value, advancing the cursor on success. On failure the
    /// cursor is not required to be restored: callers that need
    /// back-tracking must parse against a clone.
    fn parse<'a>(&self, input: &mut Input<'a>) -> (r: Option<Self::Extract>)
        ensures
            match self.parse_spec(old(input)@) {
                Some(res) => r == Some(res.0) && final(input)@ == res.1,
                None => r is None,
            },
    ;
}

} // verus!
