//! A module: an ordered collection of basic blocks.

use crate::basic_block::{BasicBlock, Terminator};
use crate::graph::Graph;
use vstd::prelude::*;

verus! {

/// A collection of basic blocks. The block at index 0 is the entry block;
/// all other reachability is derived from terminators.
#[derive(Debug, Clone)]
pub struct Module {
    /// The basic blocks in the module.
    pub blocks: Vec<BasicBlock>,
}

impl Module {
    /// The successor indices of block `i`, derived from its terminator.
    pub open spec fn succ_of(self, i: int) -> Seq<usize> {
        self.blocks@[i].terminator.successors()
    }

    /// True when every terminator's targets index a block of the module.
    pub open spec fn targets_in_range(self) -> bool {
        forall|i: int|
            0 <= i < self.blocks@.len() ==> (#[trigger] self.blocks@[i].terminator).targets_below(
                self.blocks@.len(),
            )
    }
}

impl Default for Module {
    /// An empty module with no blocks.
    fn default() -> (r: Self)
        ensures
            r.blocks@.len() == 0,
    {
        Module { blocks: Vec::new() }
    }
}

impl Graph {
    /// Derives the plain directed-graph view of a module: one node per block
    /// index, edges given by each terminator's successors in stored order.
    pub fn from_module(module: &Module) -> (g: Graph)
        ensures
            g.nodes@.len() == module.blocks@.len(),
            forall|i: int| 0 <= i < g.nodes@.len() ==> g.nodes@[i]@ == module.succ_of(i),
            module.targets_in_range() ==> g.wf(),
    {
        let mut nodes: Vec<Vec<usize>> = Vec::new();
        let n = module.blocks.len();
        for i in 0..n
            invariant
                n == module.blocks@.len(),
                nodes@.len() == i,
                forall|k: int| 0 <= k < i ==> nodes@[k]@ == module.succ_of(k),
        {
            let mut row: Vec<usize> = Vec::new();
            match module.blocks[i].terminator {
                Terminator::Jump(target) => {
                    row.push(target.0);
                },
                Terminator::Branch(_, yes, no) => {
                    row.push(yes.0);
                    row.push(no.0);
                },
                Terminator::Unset => {},
                Terminator::ReturnVoid => {},
                Terminator::Return(_) => {},
            }
            assert(row@ == module.succ_of(i as int));
            nodes.push(row);
        }
        let g = Graph { nodes };
        assert(module.targets_in_range() ==> g.wf()) by {
            if module.targets_in_range() {
                assert forall|i: int, j: int|
                    0 <= i < g.nodes@.len() && 0 <= j < g.nodes@[i]@.len() implies (
                g.nodes@[i]@[j] as int) < g.nodes@.len() by {
                    assert(g.nodes@[i]@ == module.succ_of(i));
                    assert(self_targets(module, i));
                }
            }
        }
        g
    }
}

/// True when block `i`'s terminator targets stay below the block count;
/// spelled out as a helper so the quantifier above has a clean trigger.
pub open spec fn self_targets(module: &Module, i: int) -> bool {
    module.blocks@[i].terminator.targets_below(module.blocks@.len())
}

} // verus!
