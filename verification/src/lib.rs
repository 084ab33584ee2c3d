//! A compiler and interpreter for a small tape language.
//!
//! Source text is compiled into a compact instruction sequence: runs of the same
//! operator collapse into one instruction, and loop brackets become absolute jumps.
//! The instructions are then executed against a fixed tape of byte cells.

pub mod instruction;
pub mod scanner;
pub mod machine;
pub mod brackets;
pub mod compiler;
pub mod interpreter;
pub mod laws;
