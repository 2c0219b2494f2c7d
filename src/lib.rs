pub mod argument;
pub mod command;
pub mod opt;
pub mod text;

pub use argument::{Argument, ArgumentType};
pub use command::{Command, CommandDefinition, HelpText, Request};
pub use opt::{Opt, OptType};
