use ssa_core::basic_block::{BasicBlock, BlockId, Terminator};
use ssa_core::error::IrError;
use ssa_core::instruction::{BinaryOp, Instruction, Value};
use ssa_core::module::Module;
use ssa_core::rename::global_value_numbering;
use ssa_core::ssa::insert_phi_nodes;

fn straight_line_module() -> Module {
    let mut module = Module::default();
    module.blocks.push(BasicBlock::new(
        vec![],
        vec![
            Instruction::Int(Value(0), 42),
            Instruction::Move(Value(1), Value(0)),
            Instruction::BinOp(BinaryOp::Add, Value(2), Value(0), Value(1)),
            Instruction::BinOp(BinaryOp::Add, Value(0), Value(2), Value(2)),
        ],
        Terminator::Return(Value(0)),
    ));
    module
}

fn defined_values(module: &Module) -> Vec<Value> {
    let mut defs = Vec::new();
    for block in &module.blocks {
        for p in &block.params {
            defs.push(*p);
        }
        for inst in &block.instructions {
            match *inst {
                Instruction::BinOp(_, d, _, _) => defs.push(d),
                Instruction::Move(d, _) => defs.push(d),
                Instruction::Int(d, _) => defs.push(d),
            }
        }
    }
    defs
}

#[test]
fn renaming_straight_line_code() {
    let mut module = straight_line_module();
    global_value_numbering(&mut module).unwrap();
    let insts = &module.blocks[0].instructions;
    assert_eq!(
        *insts,
        vec![
            Instruction::Int(Value(1), 42),
            Instruction::Move(Value(2), Value(1)),
            Instruction::BinOp(BinaryOp::Add, Value(3), Value(1), Value(2)),
            Instruction::BinOp(BinaryOp::Add, Value(4), Value(3), Value(3)),
        ]
    );
    // The redefinition of the original v0 reaches the return.
    assert_eq!(module.blocks[0].terminator, Terminator::Return(Value(4)));
}

#[test]
fn renaming_gives_each_definition_one_site() {
    // Diamond: 0 -> {1, 2} -> 3, with the same original value assigned on
    // both sides and a phi placed at the join before renaming.
    let mut module = Module::default();
    module.blocks.push(BasicBlock::new(
        vec![],
        vec![Instruction::Int(Value(0), 1), Instruction::Int(Value(9), 0)],
        Terminator::Branch(Value(9), BlockId(1), BlockId(2)),
    ));
    module.blocks.push(BasicBlock::new(
        vec![],
        vec![Instruction::BinOp(BinaryOp::Add, Value(0), Value(0), Value(0))],
        Terminator::Jump(BlockId(3)),
    ));
    module.blocks.push(BasicBlock::new(
        vec![],
        vec![Instruction::Move(Value(0), Value(9))],
        Terminator::Jump(BlockId(3)),
    ));
    module.blocks.push(BasicBlock::new(
        vec![],
        vec![],
        Terminator::Return(Value(0)),
    ));
    insert_phi_nodes(&mut module);
    assert!(module.blocks[3].params.contains(&Value(0)));

    global_value_numbering(&mut module).unwrap();
    // Every definition site now carries a distinct identity.
    let defs = defined_values(&module);
    for (i, a) in defs.iter().enumerate() {
        for b in defs.iter().skip(i + 1) {
            assert_ne!(a, b);
        }
    }
    // Topology untouched.
    assert_eq!(module.blocks.len(), 4);
    assert_eq!(
        module.blocks[0].terminator,
        Terminator::Branch(Value(2), BlockId(1), BlockId(2))
    );
}

#[test]
fn renaming_keeps_shapes_and_counts() {
    let mut module = straight_line_module();
    let before_len = module.blocks[0].instructions.len();
    global_value_numbering(&mut module).unwrap();
    assert_eq!(module.blocks.len(), 1);
    assert_eq!(module.blocks[0].instructions.len(), before_len);
}

#[test]
fn renaming_reports_undefined_uses() {
    // The return reads a value no definition reaches.
    let mut module = Module::default();
    module.blocks.push(BasicBlock::new(
        vec![],
        vec![Instruction::Int(Value(0), 1)],
        Terminator::Return(Value(7)),
    ));
    assert_eq!(
        global_value_numbering(&mut module),
        Err(IrError::UndefinedValue(Value(7)))
    );

    // An operand read before any definition is reported too.
    let mut module = Module::default();
    module.blocks.push(BasicBlock::new(
        vec![],
        vec![Instruction::Move(Value(1), Value(0))],
        Terminator::ReturnVoid,
    ));
    assert_eq!(
        global_value_numbering(&mut module),
        Err(IrError::UndefinedValue(Value(0)))
    );
}

#[test]
fn renaming_resolves_uses_through_block_parameters() {
    // A block parameter is a definition: the use in the same block resolves
    // to the parameter's fresh identity.
    let mut module = Module::default();
    module.blocks.push(BasicBlock::new(
        vec![],
        vec![],
        Terminator::Jump(BlockId(1)),
    ));
    module.blocks.push(BasicBlock::new(
        vec![Value(0)],
        vec![],
        Terminator::Return(Value(0)),
    ));
    global_value_numbering(&mut module).unwrap();
    assert_eq!(module.blocks[1].params, vec![Value(1)]);
    assert_eq!(module.blocks[1].terminator, Terminator::Return(Value(1)));
}
