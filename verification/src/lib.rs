//! A minimal command-driven language front-end.
//!
//! Source text is split into whitespace-delimited tokens and parsed into a
//! sequence of [`instruction::Instruction`] values; the interpreter executes
//! such a sequence against a run-scoped, write-once variable store, emitting
//! one output line per print instruction.

use vstd::prelude::*;

pub mod instruction;
pub mod interpreter;
pub mod parser;

verus! {

/// The character sequences of a sequence of strings, in order.
pub open spec fn strings_view(strings: Seq<String>) -> Seq<Seq<char>> {
    strings.map_values(|s: String| s@)
}

} // verus!
