//! An interpreter for Brainfuck: eight instructions that move a pointer over
//! a tape of a thousand byte cells, change the cell under it, read and write
//! bytes, and loop between brackets.
//!
//! [`brain_luck`] runs a program on its input to the end. [`Interpreter`]
//! runs it one instruction at a time. What a run is, instruction by
//! instruction, is defined in [`machine`]; how a bracket finds its partner,
//! in [`brackets`]. [`programs`] proves what a few small programs compute.

pub mod brackets;
pub mod error;
pub mod interpreter;
pub mod machine;
pub mod programs;
pub mod std_specs;

pub use brackets::{matching_closing_bracket_ptr, Bracket};
pub use error::BrainLuckError;
pub use interpreter::{brain_luck, Interpreter, Step};
