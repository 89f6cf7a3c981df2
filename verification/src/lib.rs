//! A command-parsing and dispatch engine.

pub mod checker;
pub mod command;
pub mod dispatcher;
pub mod input;
pub mod laws;

pub use checker::{ArgumentChecker, CheckerEq, CommandHandler};
pub use command::exec::{Command, Exec, ExecHandler};
pub use command::or::Or;
pub use command::{Either, ParserBase};
pub use dispatcher::{
    CommandDispatcher, CommandMeta, CommandNode, CommandNodeKind, RegisterError,
};
pub use input::Input;
