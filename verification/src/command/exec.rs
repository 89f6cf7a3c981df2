//! The terminal combinator: binds a fully-applied parse to a handler.

use vstd::prelude::*;
use crate::command::ParserBase;
use crate::input::Input;

verus! {

/// A handler bound at the `Exec` boundary: receives the context and the
/// value the inner parser extracted.
pub trait ExecHandler<C, E>: Sized {
    /// How one invocation transforms the context, given the extracted
    /// value. The default leaves it unspecified; an implementation may
    /// refine it.
    open spec fn on_exec(&self, ctx: C, extracted: E) -> C {
        arbitrary()
    }

    /// Invokes the handler once with the owned extracted value.
    fn run(&self, ctx: &mut C, extracted: E)
        ensures
            *final(ctx) == self.on_exec(*old(ctx), extracted),
    ;
}

/// Terminal wrapper around an inner parser: succeeds only if the inner
/// parser succeeds and the cursor is then fully empty, so a command's
/// grammar must consume the entire remaining input. Trailing unconsumed
/// tokens are a parse failure, not an error.
pub struct Exec<P, F> {
    pub parser: P,
    pub command: F,
}

impl<P: ParserBase, F: Copy> ParserBase for Exec<P, F> {
    type Extract = (Command<P::Extract, F>,);

    open spec fn parse_spec(&self, input: Seq<u8>) -> Option<(Self::Extract, Seq<u8>)> {
        match self.parser.parse_spec(input) {
            Some(res) => if res.1.len() == 0 {
                Some(((Command { extracted: res.0, command: self.command },), res.1))
            } else {
                None
            },
            None => None,
        }
    }

    fn parse<'a>(&self, input: &mut Input<'a>) -> (r: Option<Self::Extract>) {
        match self.parser.parse(input) {
            Some(ex) => if input.is_empty() {
                Some((Command { extracted: ex, command: self.command },))
            } else {
                None
            },
            None => None,
        }
    }
}

/// A fully-applied parse paired with the handler it binds: calling it
/// invokes the handler with the owned extracted value exactly once,
/// consuming the `Command`.
pub struct Command<E, F> {
    pub extracted: E,
    pub command: F,
}

impl<E, F> Command<E, F> {
    /// Invokes the bound handler on the extracted value.
    pub fn call<C>(self, ctx: &mut C) where F: ExecHandler<C, E>
        ensures
            *final(ctx) == self.command.on_exec(*old(ctx), self.extracted),
    {
        self.command.run(ctx, self.extracted)
    }
}

} // verus!
