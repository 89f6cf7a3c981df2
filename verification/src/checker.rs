//! Capabilities consumed by the dispatcher: argument checkers and command
//! handlers. Concrete implementations (integer parsers, entity selectors,
//! the handlers themselves) are supplied by the caller; the dispatcher only
//! relies on the contracts stated here.

use vstd::prelude::*;
use vstd::string::StringSliceAdditionalSpecFns;
use crate::input::Input;

verus! {

/// Dynamic equality between two checkers of the same type: equal checkers
/// are deduplicated into one graph node, so they must behave identically
/// for all inputs.
pub trait CheckerEq: Sized {
    /// What equality of two checkers means. The default leaves it
    /// unspecified; an implementation may refine it.
    open spec fn eq_spec(&self, other: &Self) -> bool {
        arbitrary()
    }

    /// Reports whether `self` and `other` are the same checker (same
    /// concrete parser and, where meaningful, same configuration).
    fn equals(&self, other: &Self) -> (r: bool)
        ensures
            r == self.eq_spec(other),
    ;
}

/// Tests whether an argument grammar can consume the remaining input in a
/// given context, advancing the cursor past what it consumed.
pub trait ArgumentChecker<C>: CheckerEq {
    /// Whether the checker is satisfied by the remaining bytes `input`
    /// under context `ctx`, and if so what remains after it consumes. The
    /// default leaves it unspecified; an implementation may refine it.
    open spec fn check_spec(&self, ctx: C, input: Seq<u8>) -> Option<Seq<u8>> {
        arbitrary()
    }

    /// Reports satisfiability and advances the cursor past the consumed
    /// tokens on success. Checkers are side-effect-limited to cursor
    /// advancement: the context is left unchanged. On failure the cursor
    /// state is unspecified; callers that need the pre-attempt state must
    /// have cloned the cursor.
    fn satisfies<'a>(&self, ctx: &mut C, input: &mut Input<'a>) -> (r: bool)
        ensures
            *final(ctx) == *old(ctx),
            match self.check_spec(*old(ctx), old(input)@) {
                Some(rest) => r && final(input)@ == rest,
                None => !r,
            },
    ;
}

/// A uniform callable capability `(context, raw input text) -> ()`: the
/// type-erased form in which handlers are stored on the command graph.
pub trait CommandHandler<C>: Sized {
    /// How one invocation transforms the context, given the raw command
    /// text. The default leaves it unspecified; an implementation may
    /// refine it.
    open spec fn on_call(&self, ctx: C, raw: Seq<u8>) -> C {
        arbitrary()
    }

    /// Invokes the handler with the full original command text.
    fn invoke(&self, ctx: &mut C, raw: &str)
        ensures
            *final(ctx) == self.on_call(*old(ctx), raw.spec_bytes()),
    ;
}

} // verus!
