//! A control-flow-graph wrapper over basic blocks: variable scans, the
//! derived adjacency list, and reverse-postorder traversal by block handle.

use crate::basic_block::{BasicBlock, BlockId, Terminator};
use crate::graph::{rpo_ok, Graph};
use crate::instruction::{Instruction, Value};
use vstd::prelude::*;

verus! {

/// A control-flow graph: an ordered collection of basic blocks, block 0
/// being the entry.
pub struct Cfg {
    /// The basic blocks of the graph.
    pub blocks: Vec<BasicBlock>,
}

/// The destinations of the `Int` instructions in a prefix of one block's
/// instruction list (every variable is initialised by an `Int`).
pub open spec fn int_dests_before(instrs: Seq<Instruction>, j: int) -> Seq<Value>
    decreases j,
{
    if j <= 0 {
        Seq::empty()
    } else {
        int_dests_before(instrs, j - 1) + (match instrs[j - 1] {
            Instruction::Int(dest, _) => seq![dest],
            _ => Seq::empty(),
        })
    }
}

/// The `Int` destinations of the first `k` blocks, in program order.
pub open spec fn vars_upto(blocks: Seq<BasicBlock>, k: int) -> Seq<Value>
    decreases k,
{
    if k <= 0 {
        Seq::empty()
    } else {
        vars_upto(blocks, k - 1) + int_dests_before(
            blocks[k - 1].instructions@,
            blocks[k - 1].instructions@.len() as int,
        )
    }
}

/// How many instructions in a prefix of one block write `variable` through
/// an `Int` or a binary operation.
pub open spec fn writes_before(instrs: Seq<Instruction>, variable: Value, j: int) -> nat
    decreases j,
{
    if j <= 0 {
        0
    } else {
        writes_before(instrs, variable, j - 1) + (match instrs[j - 1] {
            Instruction::Int(dest, _) => if dest == variable {
                1nat
            } else {
                0nat
            },
            Instruction::BinOp(_, dest, _, _) => if dest == variable {
                1nat
            } else {
                0nat
            },
            _ => 0nat,
        })
    }
}

/// The indices of the first `k` blocks, each repeated once per instruction
/// of it that writes `variable`.
pub open spec fn writers_upto(blocks: Seq<BasicBlock>, variable: Value, k: int) -> Seq<usize>
    decreases k,
{
    if k <= 0 {
        Seq::empty()
    } else {
        writers_upto(blocks, variable, k - 1) + Seq::new(
            writes_before(
                blocks[k - 1].instructions@,
                variable,
                blocks[k - 1].instructions@.len() as int,
            ),
            |x: int| (k - 1) as usize,
        )
    }
}

impl Cfg {
    /// The adjacency view of the graph: each block's terminator targets in
    /// stored order.
    pub open spec fn adjacency(self) -> Seq<Seq<usize>> {
        Seq::new(self.blocks@.len(), |i: int| self.blocks@[i].terminator.successors())
    }

    /// True when every terminator target indexes a block of the graph.
    pub open spec fn targets_in_range(self) -> bool {
        forall|i: int|
            0 <= i < self.blocks@.len() ==> (#[trigger] self.blocks@[i].terminator).targets_below(
                self.blocks@.len(),
            )
    }

    /// Lists every variable of the graph: the destination of each `Int`
    /// instruction, in program order (all variables are initialised with an
    /// `Int` instruction).
    pub fn get_all_variables(&self) -> (variables: Vec<Value>)
        ensures
            variables@ == vars_upto(self.blocks@, self.blocks@.len() as int),
    {
        let mut variables: Vec<Value> = Vec::new();
        let n = self.blocks.len();
        for i in 0..n
            invariant
                n == self.blocks@.len(),
                variables@ == vars_upto(self.blocks@, i as int),
        {
            let ilen = self.blocks[i].instructions.len();
            for j in 0..ilen
                invariant
                    n == self.blocks@.len(),
                    (i as int) < n,
                    ilen == self.blocks@[i as int].instructions@.len(),
                    variables@ == vars_upto(self.blocks@, i as int) + int_dests_before(
                        self.blocks@[i as int].instructions@,
                        j as int,
                    ),
            {
                match self.blocks[i].instructions[j] {
                    Instruction::Int(dest, _) => {
                        variables.push(dest);
                        proof {
                            assert(variables@ =~= vars_upto(self.blocks@, i as int)
                                + int_dests_before(
                                self.blocks@[i as int].instructions@,
                                j + 1,
                            ));
                        }
                    },
                    _ => {
                        proof {
                            assert(variables@ =~= vars_upto(self.blocks@, i as int)
                                + int_dests_before(
                                self.blocks@[i as int].instructions@,
                                j + 1,
                            ));
                        }
                    },
                }
            }
            proof {
                assert(variables@ =~= vars_upto(self.blocks@, i + 1));
            }
        }
        variables
    }

    /// Lists the blocks that write `variable` through an `Int` or a binary
    /// operation, in order, one entry per writing instruction.
    pub fn get_blocks_modifying_variable(&self, variable: Value) -> (blocks: Vec<usize>)
        ensures
            blocks@ == writers_upto(self.blocks@, variable, self.blocks@.len() as int),
    {
        let mut blocks: Vec<usize> = Vec::new();
        let n = self.blocks.len();
        for i in 0..n
            invariant
                n == self.blocks@.len(),
                blocks@ == writers_upto(self.blocks@, variable, i as int),
        {
            let ilen = self.blocks[i].instructions.len();
            for j in 0..ilen
                invariant
                    n == self.blocks@.len(),
                    (i as int) < n,
                    ilen == self.blocks@[i as int].instructions@.len(),
                    blocks@ == writers_upto(self.blocks@, variable, i as int) + Seq::new(
                        writes_before(self.blocks@[i as int].instructions@, variable, j as int),
                        |x: int| i,
                    ),
            {
                let ghost cnt = writes_before(
                    self.blocks@[i as int].instructions@,
                    variable,
                    j as int,
                );
                let hit = match self.blocks[i].instructions[j] {
                    Instruction::Int(dest, _) => dest == variable,
                    Instruction::BinOp(_, dest, _, _) => dest == variable,
                    _ => false,
                };
                if hit {
                    blocks.push(i);
                    proof {
                        assert(writes_before(
                            self.blocks@[i as int].instructions@,
                            variable,
                            j + 1,
                        ) == cnt + 1);
                        assert(Seq::new(cnt + 1, |x: int| i) =~= Seq::new(cnt, |x: int| i).push(
                            i,
                        ));
                        assert(writers_upto(self.blocks@, variable, i as int) + Seq::new(
                            cnt,
                            |x: int| i,
                        ).push(i) =~= (writers_upto(self.blocks@, variable, i as int) + Seq::new(
                            cnt,
                            |x: int| i,
                        )).push(i));
                    }
                } else {
                    proof {
                        assert(writes_before(
                            self.blocks@[i as int].instructions@,
                            variable,
                            j + 1,
                        ) == cnt);
                    }
                }
            }
            proof {
                assert(blocks@ =~= writers_upto(self.blocks@, variable, i + 1));
            }
        }
        blocks
    }

    /// Derives the adjacency list of the graph by block handle: each block's
    /// terminator targets in stored order.
    pub fn to_adjacency_list(&self) -> (adjacency_list: Vec<Vec<BlockId>>)
        ensures
            adjacency_list@.len() == self.blocks@.len(),
            forall|i: int|
                0 <= i < adjacency_list@.len() ==> (#[trigger] adjacency_list@[i]@).map_values(
                    |b: BlockId| b.0,
                ) == self.adjacency()[i],
    {
        let mut adjacency_list: Vec<Vec<BlockId>> = Vec::new();
        let n = self.blocks.len();
        for i in 0..n
            invariant
                n == self.blocks@.len(),
                adjacency_list@.len() == i,
                forall|k: int|
                    0 <= k < i ==> (#[trigger] adjacency_list@[k]@).map_values(|b: BlockId| b.0)
                        == self.adjacency()[k],
        {
            let mut row: Vec<BlockId> = Vec::new();
            match self.blocks[i].terminator {
                Terminator::Jump(dest) => {
                    row.push(dest);
                },
                Terminator::Branch(_, t, e) => {
                    row.push(t);
                    row.push(e);
                },
                _ => {},
            }
            proof {
                assert(row@.map_values(|b: BlockId| b.0) =~= self.adjacency()[i as int]);
            }
            adjacency_list.push(row);
        }
        adjacency_list
    }

    /// Reverse-postorder traversal over block handles: depth-first search
    /// from `start`, postorder reversed; each reachable block exactly once,
    /// unreachable blocks absent.
    pub fn reverse_postorder_traversal(&self, start: BlockId) -> (path: Vec<BlockId>)
        requires
            self.targets_in_range(),
            (start.0 as int) < self.blocks@.len(),
        ensures
            rpo_ok(self.adjacency(), start.0, path@.map_values(|b: BlockId| b.0)),
            path@.map_values(|b: BlockId| b.0) == crate::graph::rpo_spec(
                self.adjacency(),
                start.0,
            ),
    {
        let n = self.blocks.len();
        let mut nodes: Vec<Vec<usize>> = Vec::new();
        for i in 0..n
            invariant
                n == self.blocks@.len(),
                nodes@.len() == i,
                forall|k: int| 0 <= k < i ==> (#[trigger] nodes@[k]@) == self.adjacency()[k],
        {
            let mut row: Vec<usize> = Vec::new();
            match self.blocks[i].terminator {
                Terminator::Jump(dest) => {
                    row.push(dest.0);
                },
                Terminator::Branch(_, t, e) => {
                    row.push(t.0);
                    row.push(e.0);
                },
                _ => {},
            }
            proof {
                assert(row@ =~= self.adjacency()[i as int]);
            }
            nodes.push(row);
        }
        let graph = Graph { nodes };
        proof {
            assert forall|i: int| 0 <= i < graph@.len() implies #[trigger] graph@[i]
                == self.adjacency()[i] by {
                assert(graph@[i] == graph.nodes@[i]@);
            }
            assert(graph@ =~= self.adjacency());
            assert(graph.wf()) by {
                assert forall|i: int, j: int|
                    0 <= i < graph@.len() && 0 <= j < graph@[i].len() implies (
                #[trigger] graph@[i][j] as int) < graph@.len() by {
                    assert(self.blocks@[i].terminator.targets_below(self.blocks@.len()));
                    assert(self.adjacency()[i] == self.blocks@[i].terminator.successors());
                }
            }
        }
        let order = graph.reverse_postorder_traversal(start.0);
        let mut path: Vec<BlockId> = Vec::new();
        let m = order.len();
        for i in 0..m
            invariant
                m == order@.len(),
                path@.len() == i,
                forall|k: int| 0 <= k < i ==> (#[trigger] path@[k]).0 == order@[k],
        {
            path.push(BlockId(order[i]));
        }
        proof {
            assert(path@.map_values(|b: BlockId| b.0) =~= order@);
        }
        path
    }
}

} // verus!
