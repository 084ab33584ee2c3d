//! The instruction set that source text is compiled to.

use vstd::prelude::*;

verus! {

/// One instruction of a compiled program.
#[derive(Clone, Copy, Debug, PartialEq, Eq, Structural)]
pub enum Instruction {
    /// Add the operand to the current cell, modulo 256.
    Increment(usize),
    /// Subtract the operand from the current cell, modulo 256.
    Decrement(usize),
    /// Move the data pointer down by the operand.
    MoveLeft(usize),
    /// Move the data pointer up by the operand.
    MoveRight(usize),
    /// Read one byte of input into the current cell.
    ReadInput,
    /// Emit the current cell as often as the operand says.
    WriteOutput(usize),
    /// Continue at the operand if the current cell is zero.
    JumpIfZero(usize),
    /// Continue at the operand if the current cell is not zero.
    JumpIfNonZero(usize),
}

impl Instruction {
    /// Whether this instruction opens a loop.
    pub open spec fn opens(self) -> bool {
        self is JumpIfZero
    }

    /// Whether this instruction closes a loop.
    pub open spec fn closes(self) -> bool {
        self is JumpIfNonZero
    }

    /// The instruction with its jump target, if it has one, set to zero.
    pub open spec fn placeholder(self) -> Instruction {
        match self {
            Instruction::JumpIfZero(_) => Instruction::JumpIfZero(0),
            Instruction::JumpIfNonZero(_) => Instruction::JumpIfNonZero(0),
            other => other,
        }
    }
}

} // verus!
