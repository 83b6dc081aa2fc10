//! Declarative command-argument parsing with a closed, tagged value store.
//!
//! A [`Command`] schema lists required positional, optional positional and
//! named arguments. [`Command::parse_args`] walks a flat token line against
//! that schema and yields one [`Value`] per declared argument, or a
//! [`CmdError`].

pub mod numeric;
pub mod laws;
pub mod parse;
pub mod schema;
pub mod text;
pub mod value;

pub use parse::ParsedArgs;
pub use schema::{Arg, ArgType, Collection, Command, ScalarType};
pub use value::{CmdError, Scalar, Value, ValueKind};
