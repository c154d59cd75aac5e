use ssa_core::tac::{local_value_numbering, next_value, Instruction, Label, NumberingError, ThreeOp, Value};

#[test]
fn test_local_numbering() {
    // variable numbering:
    // a = 0
    // b = 1
    // c = 2
    // d = 3

    let program = vec![
        // a = 42
        Instruction::Int(Value(0), 42),
        // b = a
        Instruction::Move(Value(1), Value(0)),
        // c = a + b
        Instruction::ThreeOp(ThreeOp::Add, Value(2), Value(0), Value(1)),
        // d = 23
        Instruction::Int(Value(3), 23),
        // a = c + d
        Instruction::ThreeOp(ThreeOp::Add, Value(0), Value(2), Value(3)),
    ];

    let result = local_value_numbering(&program).unwrap();
    for line in &result {
        println!("{:?}", line);
    }
    assert_eq!(
        result,
        vec![
            Instruction::Int(Value(1), 42),
            Instruction::Move(Value(2), Value(1)),
            Instruction::ThreeOp(ThreeOp::Add, Value(3), Value(1), Value(2)),
            Instruction::Int(Value(4), 23),
            Instruction::ThreeOp(ThreeOp::Add, Value(5), Value(3), Value(4)),
        ]
    );
}

#[test]
fn straight_line_renaming_gives_fresh_identities() {
    // v0 = 42; v1 = v0; v2 = Add(v0, v1)
    let program = vec![
        Instruction::Int(Value(0), 42),
        Instruction::Move(Value(1), Value(0)),
        Instruction::ThreeOp(ThreeOp::Add, Value(2), Value(0), Value(1)),
    ];
    let renamed = local_value_numbering(&program).unwrap();
    assert_eq!(renamed.len(), 3);
    // Three distinct fresh identities, uses resolving to the defining ones.
    assert_eq!(renamed[0], Instruction::Int(Value(1), 42));
    assert_eq!(renamed[1], Instruction::Move(Value(2), Value(1)));
    assert_eq!(
        renamed[2],
        Instruction::ThreeOp(ThreeOp::Add, Value(3), Value(1), Value(2))
    );

    // A fourth instruction reading the undefined v3 fails with the
    // undefined-value condition.
    let mut broken = program.clone();
    broken.push(Instruction::ThreeOp(ThreeOp::Add, Value(4), Value(3), Value(3)));
    assert_eq!(
        local_value_numbering(&broken),
        Err(NumberingError::UndefinedValue(Value(3)))
    );
}

#[test]
fn undefined_move_source_is_reported() {
    let program = vec![Instruction::Move(Value(1), Value(0))];
    assert_eq!(
        local_value_numbering(&program),
        Err(NumberingError::UndefinedValue(Value(0)))
    );
}

#[test]
fn next_value_counts_up() {
    let mut counter: usize = 5;
    let a = next_value(&mut counter);
    let b = next_value(&mut counter);
    assert_eq!(a, Value(5));
    assert_eq!(b, Value(6));
    assert_eq!(counter, 7);
}

#[test]
fn control_flow_entries_are_outside_local_scope() {
    let start = Label {
        name: "start".to_string(),
        params: Vec::new(),
    };
    let program = vec![
        Instruction::Label(start.clone()),
        Instruction::Int(Value(0), 7),
        Instruction::Bnz(Value(0), start.clone()),
        Instruction::Jump(start),
    ];
    // The local variant renames the straight-line definitions and drops the
    // control-flow entries, which belong to the whole-module pass.
    let renamed = local_value_numbering(&program).unwrap();
    assert_eq!(renamed, vec![Instruction::Int(Value(1), 7)]);
}
