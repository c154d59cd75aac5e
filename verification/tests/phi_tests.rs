use ssa_core::basic_block::{BasicBlock, BlockId, Terminator};
use ssa_core::builder::ModuleBuilder;
use ssa_core::error::IrError;
use ssa_core::instruction::{BinaryOp, Instruction, Value};
use ssa_core::module::Module;
use ssa_core::ssa::insert_phi_nodes;

fn has(params: &Vec<Value>, v: Value) -> bool {
    params.iter().any(|p| *p == v)
}

#[test]
fn algorithms_test() {
    // program from fig 3.1 of ssa book
    let mut builder = ModuleBuilder::default();
    // basic block definition
    let entry = builder.push_bb();
    let block_a = builder.push_bb();
    let block_b = builder.push_bb();
    let block_c = builder.push_bb();
    let block_d = builder.push_bb();
    let block_e = builder.push_bb();

    builder.switch_to_block(entry);
    builder.set_terminator(Terminator::Jump(block_a)).unwrap();

    // block B
    builder.switch_to_block(block_b);
    let x = builder.push_variable();
    let y = builder.push_variable();
    builder.load_int(x, 0).unwrap();
    builder.load_int(y, 0).unwrap();
    builder.set_terminator(Terminator::Jump(block_d)).unwrap();

    // block C
    builder.switch_to_block(block_c);
    let tmp = builder.push_variable();
    builder.build_move(x, tmp).unwrap();
    builder.build_move(y, x).unwrap();
    builder.build_move(tmp, y).unwrap();
    builder
        .set_terminator(Terminator::Branch(x, block_d, block_e))
        .unwrap();

    // block D
    builder.switch_to_block(block_d);
    builder.build_binop(x, x, y, BinaryOp::Add).unwrap();
    builder
        .set_terminator(Terminator::Branch(x, block_a, block_e))
        .unwrap();

    // block E
    builder.switch_to_block(block_e);
    builder.set_terminator(Terminator::Return(x)).unwrap();

    // block A
    builder.switch_to_block(block_a);
    builder
        .set_terminator(Terminator::Branch(tmp, block_b, block_c))
        .unwrap();

    let module = builder.build_module();
    println!("{:?}", module);

    // The loop join D and the exit join E receive parameters for x and y;
    // the entry block and the straight-line blocks B and C receive none.
    assert!(has(&module.blocks[block_d.0].params, x));
    assert!(has(&module.blocks[block_d.0].params, y));
    assert!(has(&module.blocks[block_e.0].params, x));
    assert!(has(&module.blocks[block_e.0].params, y));
    assert!(module.blocks[entry.0].params.is_empty());
    assert!(module.blocks[block_b.0].params.is_empty());
    assert!(module.blocks[block_c.0].params.is_empty());
}

fn fig_3_1_module() -> Module {
    let mut module = Module::default();
    // entry
    module.blocks.push(BasicBlock::new(
        vec![],
        vec![],
        Terminator::Jump(BlockId(1)),
    ));
    // block A
    module.blocks.push(BasicBlock::new(
        vec![],
        vec![],
        Terminator::Branch(Value(2), BlockId(2), BlockId(3)),
    ));
    // block B
    module.blocks.push(BasicBlock::new(
        vec![],
        vec![
            Instruction::Int(Value(0), 0), // x = 0
            Instruction::Int(Value(1), 0), // y = 0
        ],
        Terminator::Jump(BlockId(4)),
    ));
    // block C
    module.blocks.push(BasicBlock::new(
        vec![],
        vec![
            Instruction::Move(Value(2), Value(0)), // tmp = x
            Instruction::Move(Value(0), Value(1)), // x = y
            Instruction::Move(Value(1), Value(2)), // y = tmp
        ],
        Terminator::Branch(Value(0), BlockId(4), BlockId(5)),
    ));
    // block D
    module.blocks.push(BasicBlock::new(
        vec![],
        vec![
            Instruction::BinOp(BinaryOp::Add, Value(0), Value(0), Value(1)), // x = x + y
        ],
        Terminator::Branch(Value(0), BlockId(1), BlockId(5)),
    ));
    // block E
    module.blocks.push(BasicBlock::new(
        vec![],
        vec![],
        Terminator::Return(Value(0)),
    ));
    module
}

#[test]
fn ssa_test() {
    let mut module = fig_3_1_module();
    insert_phi_nodes(&mut module);
    println!("{:?}", module);

    let x = Value(0);
    let y = Value(1);
    // x and y are assigned in C and D: both joins reached from there (D and
    // E) get parameters for them.
    assert!(has(&module.blocks[4].params, x));
    assert!(has(&module.blocks[4].params, y));
    assert!(has(&module.blocks[5].params, x));
    assert!(has(&module.blocks[5].params, y));
    assert!(module.blocks[0].params.is_empty());
    assert!(module.blocks[2].params.is_empty());
    assert!(module.blocks[3].params.is_empty());
}

#[test]
fn phi_insertion_is_idempotent() {
    let mut once = fig_3_1_module();
    insert_phi_nodes(&mut once);
    let mut twice = fig_3_1_module();
    insert_phi_nodes(&mut twice);
    insert_phi_nodes(&mut twice);
    assert_eq!(once.blocks.len(), twice.blocks.len());
    for (a, b) in once.blocks.iter().zip(twice.blocks.iter()) {
        assert_eq!(a.params, b.params);
        assert_eq!(a.instructions, b.instructions);
        assert_eq!(a.terminator, b.terminator);
    }
}

#[test]
fn phi_insertion_leaves_empty_module_alone() {
    let mut module = Module::default();
    insert_phi_nodes(&mut module);
    assert!(module.blocks.is_empty());
}

#[test]
fn builder_reports_missing_block_selection() {
    let mut builder = ModuleBuilder::default();
    assert_eq!(
        builder.set_terminator(Terminator::ReturnVoid),
        Err(IrError::NoBlockSelected)
    );
    let v = builder.push_variable();
    assert_eq!(builder.load_int(v, 1), Err(IrError::NoBlockSelected));
}

#[test]
fn builder_reports_unknown_blocks() {
    let mut builder = ModuleBuilder::default();
    let b = builder.push_bb();
    builder.switch_to_block(BlockId(7));
    let v = builder.push_variable();
    assert_eq!(builder.load_int(v, 1), Err(IrError::UnknownBlock(BlockId(7))));
    builder.switch_to_block(b);
    assert_eq!(
        builder.set_terminator(Terminator::Jump(BlockId(9))),
        Err(IrError::UnknownBlock(BlockId(9)))
    );
    assert_eq!(builder.set_terminator(Terminator::Jump(b)), Ok(()));
}

#[test]
fn builder_values_are_fresh_in_order() {
    let mut builder = ModuleBuilder::default();
    let a = builder.push_variable();
    let b = builder.push_variable();
    assert_eq!(a, Value(0));
    assert_eq!(b, Value(1));
    assert_ne!(a, b);
}
