//! Compiles a small declarative configuration language of `name = value`
//! assignments and `name -> { member, ... }` object declarations into one
//! JSON document.
//!
//! Variables and objects keep the order of their first declaration; a key
//! declared again takes the new value in its old place. Objects appear in the
//! document in that order, and the members of each object in the order they
//! are listed.
pub mod text;
pub mod classify;
pub mod resolve;
pub mod compile;
pub mod cli;

pub use classify::{classify_line, is_object, is_variable, Line, RawValue};
pub use cli::JsonGenerator;
pub use compile::{compile, declare, Compilation, Declarations, ObjectDecl};
pub use resolve::{resolve, Diagnostic, DiagnosticKind, Variable};
