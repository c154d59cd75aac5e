//! Basic blocks and their terminators.

use crate::instruction::{Instruction, Value};
use vstd::prelude::*;

verus! {

/// A reference to a basic block in an IR function: a dense index into the
/// module's block sequence.
#[derive(Debug, Clone, Copy, PartialEq, Eq, Hash, Structural)]
pub struct BlockId(pub usize);

/// The terminator of a basic block.
#[derive(Debug, Clone, Copy, PartialEq, Eq, Hash, Structural)]
pub enum Terminator {
    /// No terminator has been added to the block yet. A block with this
    /// terminator has no successors in the derived graph view; the IR is not
    /// finished until every terminator is set.
    Unset,
    /// The block ends with a return with no value.
    ReturnVoid,
    /// The block ends with a return with a value.
    Return(Value),
    /// The block ends with a jump to another block.
    Jump(BlockId),
    /// The block ends with a branch to two different blocks depending on the
    /// truthiness of the value: the first block when true, the second when
    /// false. The edge order (then, else) is significant and preserved in
    /// every derived adjacency list.
    Branch(Value, BlockId, BlockId),
}

impl Terminator {
    /// The successor block indices the terminator transfers control to, in
    /// stored order; a branch to the same block twice keeps both entries.
    pub open spec fn successors(self) -> Seq<usize> {
        match self {
            Terminator::Jump(target) => seq![target.0],
            Terminator::Branch(_, yes, no) => seq![yes.0, no.0],
            Terminator::Unset => seq![],
            Terminator::ReturnVoid => seq![],
            Terminator::Return(_) => seq![],
        }
    }

    /// True when every successor index is below `n`.
    pub open spec fn targets_below(self, n: nat) -> bool {
        forall|k: int| 0 <= k < self.successors().len() ==> (self.successors()[k] as nat) < n
    }
}

/// A basic block: a `params` list of block parameters (phi values), an
/// ordered sequence of instructions, and one terminator.
#[derive(Debug, Clone)]
pub struct BasicBlock {
    /// The parameters of the basic block, one phi value per entry.
    pub params: Vec<Value>,
    /// The instructions of the basic block.
    pub instructions: Vec<Instruction>,
    /// The terminator of the basic block.
    pub terminator: Terminator,
}

impl BasicBlock {
    /// Creates a new basic block with the given parameters, instructions,
    /// and terminator.
    pub fn new(params: Vec<Value>, instructions: Vec<Instruction>, terminator: Terminator) -> (
        r: Self)
        ensures
            r.params == params,
            r.instructions == instructions,
            r.terminator == terminator,
    {
        BasicBlock { params, instructions, terminator }
    }
}

} // verus!
