//! Errors for malformed IR and builder misuse.

use crate::basic_block::BlockId;
use crate::instruction::Value;
use vstd::prelude::*;

verus! {

/// A malformed-IR condition. These report a broken caller or front end, not
/// bad input data: a builder call with no block selected, a block reference
/// outside the module, or a use of a value with no reaching definition.
#[derive(Debug, Clone, Copy, PartialEq, Eq, Structural)]
pub enum IrError {
    /// A builder call was issued while no block was selected.
    NoBlockSelected,
    /// A block reference does not index a block of the module.
    UnknownBlock(BlockId),
    /// A use was reached by no definition.
    UndefinedValue(Value),
}

} // verus!
