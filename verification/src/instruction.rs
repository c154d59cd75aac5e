//! Instructions that exist in a basic block.

use vstd::prelude::*;

verus! {

/// A reference to a value in an IR function. Semantically a small
/// non-negative integer naming a definition site; freely copied.
#[derive(Debug, Clone, Copy, PartialEq, Eq, Hash, Structural)]
pub struct Value(pub usize);

/// Operations that instructions can perform.
#[derive(Debug, Clone, Copy, PartialEq, Eq, Hash, Structural)]
pub enum BinaryOp {
    /// Addition
    Add,
    /// Bitwise AND
    And,
    /// Equality comparison
    Eq,
    /// Less-than comparison
    Lt,
    /// Less-than-or-equal comparison
    Le,
}

/// An instruction that exists in a basic block.
#[derive(Debug, Clone, Copy, PartialEq, Eq, Hash, Structural)]
pub enum Instruction {
    /// Computes a binary operation (v1 = v2 op v3)
    BinOp(BinaryOp, Value, Value, Value),
    /// Moves one value to another
    Move(Value, Value),
    /// Loads an integer constant
    Int(Value, i32),
}

impl Instruction {
    /// The destination the instruction writes, for the instruction kinds
    /// whose destination takes part in phi placement (`Int` destinations are
    /// not phi candidates).
    pub open spec fn phi_def(self) -> Option<Value> {
        match self {
            Instruction::BinOp(_, dest, _, _) => Some(dest),
            Instruction::Move(dest, _) => Some(dest),
            Instruction::Int(_, _) => None,
        }
    }
}

} // verus!
