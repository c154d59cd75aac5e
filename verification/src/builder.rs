//! Incremental construction of a module.

use crate::basic_block::{BasicBlock, BlockId, Terminator};
use crate::error::IrError;
use crate::instruction::{BinaryOp, Instruction, Value};
use crate::module::Module;
use crate::ssa::insert_phi_nodes;
use vstd::prelude::*;

verus! {

/// Builds a module one block and one instruction at a time. Fresh values
/// come from an explicit counter owned by the builder, so separate modules
/// are built independently and deterministically.
#[derive(Debug, Clone)]
pub struct ModuleBuilder {
    /// The module being built.
    module: Module,
    /// The next value to be used.
    val_counter: usize,
    /// The current block being built.
    current_block: Option<BlockId>,
}

impl ModuleBuilder {
    /// The module as built so far.
    pub closed spec fn spec_module(self) -> Module {
        self.module
    }

    /// The fresh-value counter.
    pub closed spec fn spec_counter(self) -> nat {
        self.val_counter as nat
    }

    /// The block new instructions go to.
    pub closed spec fn spec_current(self) -> Option<BlockId> {
        self.current_block
    }

    /// Every terminator set so far points at a block of the module. The
    /// builder's methods keep this; it is what lets the finished module be
    /// analysed safely.
    pub open spec fn wf(self) -> bool {
        self.spec_module().targets_in_range()
    }

    /// Applies the SSA phi-placement pass and returns the module. The
    /// builder is consumed: it is only meant to be used when module
    /// construction is done.
    pub fn build_module(self) -> (module: Module)
        requires
            self.wf(),
        ensures
            crate::ssa::phi_insertion(self.spec_module(), module),
            module.targets_in_range(),
    {
        let mut module = self.module;
        insert_phi_nodes(&mut module);
        assert(module.targets_in_range()) by {
            let m0 = self.spec_module();
            if m0.blocks@.len() == 0 {
                assert(module.blocks@.len() == 0);
            } else {
                assert forall|i: int|
                    0 <= i < module.blocks@.len() implies (#[trigger] module.blocks@[i].terminator).targets_below(
                    module.blocks@.len(),
                ) by {
                    let (doms, df) = choose|doms: Seq<Option<usize>>, df: Seq<Vec<usize>>|
                        #[trigger] crate::dominance::dom_ok(
                            crate::ssa::module_adj(m0),
                            0,
                            doms,
                        ) && #[trigger] crate::dominance::frontier_ok(
                            crate::ssa::module_adj(m0),
                            doms,
                            df,
                        ) && crate::ssa::phi_rel(m0, module, df);
                    assert(module.blocks@[i].terminator == m0.blocks@[i].terminator);
                    assert(m0.blocks@[i].terminator.targets_below(m0.blocks@.len()));
                }
            }
        }
        module
    }

    /// Pushes a new empty basic block (no parameters, no instructions, an
    /// unset terminator) to the module and returns the reference to it.
    pub fn push_bb(&mut self) -> (id: BlockId)
        requires
            old(self).wf(),
        ensures
            final(self).wf(),
            id.0 == old(self).spec_module().blocks@.len(),
            final(self).spec_module().blocks@.len() == old(self).spec_module().blocks@.len() + 1,
            forall|k: int|
                0 <= k < old(self).spec_module().blocks@.len() ==> final(self).spec_module().blocks@[k]
                    == old(self).spec_module().blocks@[k],
            final(self).spec_module().blocks@.last().params@.len() == 0,
            final(self).spec_module().blocks@.last().instructions@.len() == 0,
            final(self).spec_module().blocks@.last().terminator == Terminator::Unset,
            final(self).spec_counter() == old(self).spec_counter(),
            final(self).spec_current() == old(self).spec_current(),
    {
        let id = BlockId(self.module.blocks.len());
        self.module.blocks.push(
            BasicBlock::new(Vec::new(), Vec::new(), Terminator::Unset),
        );
        assert(self.wf()) by {
            assert(forall|i: int|
                0 <= i < old(self).module.blocks@.len() ==> self.module.blocks@[i]
                    == old(self).module.blocks@[i]);
        }
        id
    }

    /// Selects the block that later instruction and terminator calls work
    /// on.
    pub fn switch_to_block(&mut self, id: BlockId)
        ensures
            final(self).spec_current() == Some(id),
            final(self).spec_module() == old(self).spec_module(),
            final(self).spec_counter() == old(self).spec_counter(),
    {
        self.current_block = Some(id);
    }

    /// Allocates a fresh value from the builder's counter.
    pub fn push_variable(&mut self) -> (val: Value)
        requires
            old(self).spec_counter() < usize::MAX,
        ensures
            val.0 == old(self).spec_counter(),
            final(self).spec_counter() == old(self).spec_counter() + 1,
            final(self).spec_module() == old(self).spec_module(),
            final(self).spec_current() == old(self).spec_current(),
    {
        let val = Value(self.val_counter);
        self.val_counter = self.val_counter + 1;
        val
    }

    /// The selected block's index, or the error a misused builder call
    /// reports: no block selected, or a selection outside the module.
    fn current_index(&self) -> (r: Result<usize, IrError>)
        ensures
            match r {
                Ok(i) => self.spec_current() == Some(BlockId(i)) && (i as int)
                    < self.spec_module().blocks@.len(),
                Err(e) => (self.spec_current() is None && e == IrError::NoBlockSelected) || (
                exists|id: BlockId|
                    self.spec_current() == Some(id) && (id.0 as int)
                        >= self.spec_module().blocks@.len() && e == IrError::UnknownBlock(id)),
            },
    {
        match self.current_block {
            None => Err(IrError::NoBlockSelected),
            Some(id) => {
                if id.0 < self.module.blocks.len() {
                    Ok(id.0)
                } else {
                    Err(IrError::UnknownBlock(id))
                }
            },
        }
    }

    /// Sets the terminator of the current block. Reports a malformed-IR
    /// error when no block is selected, when the selection is out of range,
    /// or when the terminator names a block outside the module (the builder
    /// keeps every stored target in range).
    pub fn set_terminator(&mut self, terminator: Terminator) -> (r: Result<(), IrError>)
        requires
            old(self).wf(),
        ensures
            final(self).wf(),
            final(self).spec_counter() == old(self).spec_counter(),
            final(self).spec_current() == old(self).spec_current(),
            match r {
                Ok(_) => {
                    &&& terminator_error(
                        old(self).spec_module(),
                        old(self).spec_current(),
                        terminator,
                    ) is None
                    &&& terminator.targets_below(old(self).spec_module().blocks@.len())
                    &&& old(self).spec_current() matches Some(id) && (id.0 as int) < old(
                        self,
                    ).spec_module().blocks@.len()
                    &&& terminator_set(
                        old(self).spec_module(),
                        final(self).spec_module(),
                        old(self).spec_current().unwrap().0 as int,
                        terminator,
                    )
                },
                Err(e) => final(self).spec_module() == old(self).spec_module()
                    && terminator_error(
                    old(self).spec_module(),
                    old(self).spec_current(),
                    terminator,
                ) == Some(e),
            },
    {
        let idx = match self.current_index() {
            Ok(i) => i,
            Err(e) => {
                return Err(e);
            },
        };
        let ok = match terminator {
            Terminator::Jump(target) => {
                if target.0 < self.module.blocks.len() {
                    Ok(())
                } else {
                    Err(IrError::UnknownBlock(target))
                }
            },
            Terminator::Branch(_, yes, no) => {
                if yes.0 >= self.module.blocks.len() {
                    Err(IrError::UnknownBlock(yes))
                } else if no.0 >= self.module.blocks.len() {
                    Err(IrError::UnknownBlock(no))
                } else {
                    Ok(())
                }
            },
            _ => Ok(()),
        };
        if let Err(e) = ok {
            return Err(e);
        }
        let block = &mut self.module.blocks[idx];
        block.terminator = terminator;
        assert(self.module.blocks@[idx as int].terminator == terminator);
        assert(self.wf()) by {
            assert(forall|i: int|
                0 <= i < self.module.blocks@.len() && i != idx ==> self.module.blocks@[i]
                    == old(self).module.blocks@[i]);
        }
        Ok(())
    }

    /// Appends an instruction to the current block; shared by the
    /// instruction builders.
    fn push_instruction(&mut self, inst: Instruction) -> (r: Result<(), IrError>)
        requires
            old(self).wf(),
        ensures
            final(self).wf(),
            built_one(*old(self), *final(self), inst, r),
    {
        let idx = match self.current_index() {
            Ok(i) => i,
            Err(e) => {
                return Err(e);
            },
        };
        let block = &mut self.module.blocks[idx];
        block.instructions.push(inst);
        assert(self.wf()) by {
            assert(forall|i: int|
                0 <= i < self.module.blocks@.len() ==> self.module.blocks@[i].terminator
                    == old(self).module.blocks@[i].terminator);
        }
        Ok(())
    }

    /// Builds a load-int instruction (`var = int`) in the current block.
    /// Reports a malformed-IR error when no valid block is selected.
    pub fn load_int(&mut self, var: Value, literal: i32) -> (r: Result<(), IrError>)
        requires
            old(self).wf(),
        ensures
            final(self).wf(),
            built_one(*old(self), *final(self), Instruction::Int(var, literal), r),
    {
        self.push_instruction(Instruction::Int(var, literal))
    }

    /// Builds a move instruction (`to = from`) in the current block.
    /// Reports a malformed-IR error when no valid block is selected.
    pub fn build_move(&mut self, from: Value, to: Value) -> (r: Result<(), IrError>)
        requires
            old(self).wf(),
        ensures
            final(self).wf(),
            built_one(*old(self), *final(self), Instruction::Move(to, from), r),
    {
        self.push_instruction(Instruction::Move(to, from))
    }

    /// Builds a binary-operation instruction (`to = lhs operation rhs`) in
    /// the current block. Reports a malformed-IR error when no valid block
    /// is selected.
    pub fn build_binop(&mut self, to: Value, lhs: Value, rhs: Value, operation: BinaryOp) -> (r:
        Result<(), IrError>)
        requires
            old(self).wf(),
        ensures
            final(self).wf(),
            built_one(*old(self), *final(self), Instruction::BinOp(operation, to, lhs, rhs), r),
    {
        self.push_instruction(Instruction::BinOp(operation, to, lhs, rhs))
    }
}

impl Default for ModuleBuilder {
    /// A builder holding an empty module, the counter at zero and no block
    /// selected.
    fn default() -> (r: Self)
        ensures
            r.wf(),
            r.spec_module().blocks@.len() == 0,
            r.spec_counter() == 0,
            r.spec_current() is None,
    {
        ModuleBuilder { module: Module { blocks: Vec::new() }, val_counter: 0, current_block: None }
    }
}

/// The misuse, if any, that a terminator-setting call must report: no block
/// selected, a selection outside the module, or a target outside the module
/// (the first out-of-range target, then-side first). `None` means the call
/// is owed success.
pub open spec fn terminator_error(m: Module, cur: Option<BlockId>, t: Terminator) -> Option<
    IrError,
> {
    match cur {
        None => Some(IrError::NoBlockSelected),
        Some(id) => {
            if (id.0 as int) >= m.blocks@.len() {
                Some(IrError::UnknownBlock(id))
            } else {
                match t {
                    Terminator::Jump(target) => {
                        if (target.0 as int) >= m.blocks@.len() {
                            Some(IrError::UnknownBlock(target))
                        } else {
                            None
                        }
                    },
                    Terminator::Branch(_, yes, no) => {
                        if (yes.0 as int) >= m.blocks@.len() {
                            Some(IrError::UnknownBlock(yes))
                        } else if (no.0 as int) >= m.blocks@.len() {
                            Some(IrError::UnknownBlock(no))
                        } else {
                            None
                        }
                    },
                    _ => None,
                }
            }
        },
    }
}

/// The two modules agree block for block except that block `idx` of `post`
/// carries `terminator`; its parameters and instructions are kept.
pub open spec fn terminator_set(pre: Module, post: Module, idx: int, terminator: Terminator) -> bool {
    &&& post.blocks@.len() == pre.blocks@.len()
    &&& forall|k: int| 0 <= k < pre.blocks@.len() && k != idx ==> post.blocks@[k] == pre.blocks@[k]
    &&& post.blocks@[idx].terminator == terminator
    &&& post.blocks@[idx].params == pre.blocks@[idx].params
    &&& post.blocks@[idx].instructions == pre.blocks@[idx].instructions
}

/// The two modules agree block for block except that block `idx` of `post`
/// holds one more instruction, `inst`, at the end; its parameters and
/// terminator are kept.
pub open spec fn instruction_appended(pre: Module, post: Module, idx: int, inst: Instruction) -> bool {
    &&& post.blocks@.len() == pre.blocks@.len()
    &&& forall|k: int| 0 <= k < pre.blocks@.len() && k != idx ==> post.blocks@[k] == pre.blocks@[k]
    &&& post.blocks@[idx].terminator == pre.blocks@[idx].terminator
    &&& post.blocks@[idx].params == pre.blocks@[idx].params
    &&& post.blocks@[idx].instructions@ == pre.blocks@[idx].instructions@.push(inst)
}

/// What one instruction-builder call does: on success the instruction is
/// appended to the selected block and nothing else moves; on a malformed-IR
/// error the builder reports which misuse happened and changes nothing.
pub open spec fn built_one(
    pre: ModuleBuilder,
    post: ModuleBuilder,
    inst: Instruction,
    r: Result<(), IrError>,
) -> bool {
    &&& post.spec_counter() == pre.spec_counter()
    &&& post.spec_current() == pre.spec_current()
    &&& match r {
        Ok(_) => {
            &&& pre.spec_current() matches Some(id) && (id.0 as int)
                < pre.spec_module().blocks@.len()
            &&& instruction_appended(
                pre.spec_module(),
                post.spec_module(),
                pre.spec_current().unwrap().0 as int,
                inst,
            )
        },
        Err(e) => {
            &&& post.spec_module() == pre.spec_module()
            &&& ((pre.spec_current() is None && e == IrError::NoBlockSelected) || (exists|
                id: BlockId,
            |
                pre.spec_current() == Some(id) && (id.0 as int)
                    >= pre.spec_module().blocks@.len() && e == IrError::UnknownBlock(id)))
        },
    }
}

} // verus!
