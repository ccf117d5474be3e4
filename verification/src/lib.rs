//! An interpreter for Doumi, a Deadfish dialect with named blocks.
//!
//! The language has one register, the accumulator, and seven instructions on
//! it: `i` adds one, `d` takes one away, `s` squares, `r` resets to 0, `o` puts
//! the value out in decimal, `p` puts it out as a character, and `j` jumps back
//! to the start. By the wrap rule the accumulator cannot stay negative or at
//! 256: 0 follows. `(name;body)` defines the block `name`, and `@name.` calls
//! it: the block runs with a history of its own, and its value is added to the
//! caller's.
//!
//! A [`Deadfish`] reads a program with `from_string` and runs it with `run`. What
//! a text means as a program is said in [`grammar`], what a program does in
//! [`semantics`]; what follows from both is proved in [`laws`], [`casing`] and
//! [`render`].

pub mod ast;
pub mod casing;
pub mod grammar;
pub mod laws;
pub mod machine;
pub mod parser;
pub mod render;
pub mod semantics;
pub mod table;
pub mod text;

pub use crate::ast::Ast;
pub use crate::machine::{Deadfish, Outcome, UnknownBlock};
pub use crate::semantics::Status;
pub use crate::table::SymbolTable;
