//! Straight-line three-address code and the local renaming pass: every
//! definition gets a fresh identity and every use is rewritten to the
//! identity of the definition that precedes it in program order.

use vstd::prelude::*;

verus! {

/// A value of the three-address code.
#[derive(Debug, Clone, Copy, PartialEq, Eq, Hash, Structural)]
pub struct Value(pub usize);

/// A named jump target with block parameters.
#[derive(Debug, Clone, PartialEq, Eq, Hash)]
pub struct Label {
    /// The label's name.
    pub name: String,
    /// The label's block parameters.
    pub params: Vec<Value>,
}

/// Three-address-code operations.
#[derive(Debug, Clone, Copy, PartialEq, Eq, Hash, Structural)]
pub enum ThreeOp {
    /// Addition
    Add,
    /// Equality comparison
    Eq,
    /// Less-than comparison
    Lt,
    /// Less-than-or-equal comparison
    Le,
}

/// A three-address-code instruction.
#[derive(Debug, Clone, PartialEq, Eq, Hash)]
pub enum Instruction {
    /// Computes an operation over two values into a destination.
    ThreeOp(ThreeOp, Value, Value, Value),
    /// Loads an integer constant.
    Int(Value, i32),
    /// Copies one value into another.
    Move(Value, Value),
    /// Marks a jump target.
    Label(Label),
    /// Jumps to the given label if the value is truthy.
    Bnz(Value, Label),
    /// Jumps unconditionally to the given label.
    Jump(Label),
}

/// An error of the local renaming pass: a use with no preceding definition
/// in program order (malformed straight-line code).
#[derive(Debug, Clone, Copy, PartialEq, Eq, Structural)]
pub enum NumberingError {
    /// The value was read before any definition of it.
    UndefinedValue(Value),
}

/// Hands out the next fresh value and advances the counter.
pub fn next_value(counter: &mut usize) -> (result: Value)
    requires
        *old(counter) < usize::MAX,
    ensures
        result == Value(*old(counter)),
        *final(counter) == *old(counter) + 1,
{
    let result = Value(*counter);
    *counter = *counter + 1;
    result
}

/// The most recent binding of `k`, scanning the renaming history from the
/// newest entry back.
pub open spec fn lookup(m: Seq<(Value, Value)>, k: Value) -> Option<Value>
    decreases m.len(),
{
    if m.len() == 0 {
        None
    } else if m.last().0 == k {
        Some(m.last().1)
    } else {
        lookup(m.drop_last(), k)
    }
}

/// What local renaming computes from position `i` on, given the renaming
/// history `m` and the fresh counter: loads and operations define fresh
/// values and rewrite their operands through the history; moves copy the
/// source's current identity into a fresh one; control-flow entries are
/// outside the local variant's straight-line scope and are dropped; a use
/// with no binding is the undefined-value condition.
pub open spec fn local_numbering(
    prog: Seq<Instruction>,
    i: int,
    m: Seq<(Value, Value)>,
    counter: nat,
) -> Result<Seq<Instruction>, Value>
    decreases prog.len() - i,
{
    if i < 0 || i >= prog.len() {
        Ok(Seq::empty())
    } else {
        match prog[i] {
            Instruction::Int(dest, literal) => {
                let fresh = Value(counter as usize);
                match local_numbering(prog, i + 1, m.push((dest, fresh)), counter + 1) {
                    Ok(rest) => Ok(seq![Instruction::Int(fresh, literal)] + rest),
                    Err(e) => Err(e),
                }
            },
            Instruction::Move(dest, src) => {
                match lookup(m, src) {
                    None => Err(src),
                    Some(sv) => {
                        let fresh = Value(counter as usize);
                        match local_numbering(prog, i + 1, m.push((dest, fresh)), counter + 1) {
                            Ok(rest) => Ok(seq![Instruction::Move(fresh, sv)] + rest),
                            Err(e) => Err(e),
                        }
                    },
                }
            },
            Instruction::ThreeOp(op, dest, lhs, rhs) => {
                match lookup(m, lhs) {
                    None => Err(lhs),
                    Some(lv) => {
                        match lookup(m, rhs) {
                            None => Err(rhs),
                            Some(rv) => {
                                let fresh = Value(counter as usize);
                                match local_numbering(
                                    prog,
                                    i + 1,
                                    m.push((dest, fresh)),
                                    counter + 1,
                                ) {
                                    Ok(rest) => Ok(
                                        seq![Instruction::ThreeOp(op, fresh, lv, rv)] + rest,
                                    ),
                                    Err(e) => Err(e),
                                }
                            },
                        }
                    },
                }
            },
            _ => local_numbering(prog, i + 1, m, counter),
        }
    }
}

/// Glues a finished output prefix onto the outcome of the remaining
/// computation.
pub open spec fn with_prefix(
    prefix: Seq<Instruction>,
    rest: Result<Seq<Instruction>, Value>,
) -> Result<Seq<Instruction>, Value> {
    match rest {
        Ok(s) => Ok(prefix + s),
        Err(e) => Err(e),
    }
}

/// Looks up the most recent binding of `k` in the renaming history.
fn find_binding(mapping: &Vec<(Value, Value)>, k: Value) -> (r: Option<Value>)
    ensures
        r == lookup(mapping@, k),
{
    let mut i = mapping.len();
    proof {
        assert(mapping@.take(mapping@.len() as int) =~= mapping@);
    }
    while i > 0
        invariant
            i <= mapping@.len(),
            lookup(mapping@, k) == lookup(mapping@.take(i as int), k),
        decreases i,
    {
        let ghost pre = mapping@.take(i as int);
        i = i - 1;
        if mapping[i].0 == k {
            proof {
                assert(pre.last() == mapping@[i as int]);
            }
            return Some(mapping[i].1);
        }
        proof {
            assert(pre.last() == mapping@[i as int]);
            assert(pre.drop_last() =~= mapping@.take(i as int));
        }
    }
    proof {
        assert(mapping@.take(0) =~= Seq::<(Value, Value)>::empty());
    }
    None
}

/// Renames a straight-line program: every definition receives a fresh value
/// (counting up from one) and every use is rewritten to the most recent
/// renamed identity of its operand; a use with no preceding definition
/// reports the undefined-value condition. Control-flow entries are outside
/// the local variant's scope and are dropped.
pub fn local_value_numbering(program: &Vec<Instruction>) -> (r: Result<
    Vec<Instruction>,
    NumberingError,
>)
    requires
        program@.len() < usize::MAX,
    ensures
        match r {
            Ok(out) => local_numbering(program@, 0, Seq::empty(), 1) == Ok::<_, Value>(out@),
            Err(e) => {
                exists|v: Value|
                    e == NumberingError::UndefinedValue(v) && local_numbering(
                        program@,
                        0,
                        Seq::empty(),
                        1,
                    ) == Err::<Seq<Instruction>, _>(v)
            },
        },
{
    // maps the original value to the new value
    let mut mapping: Vec<(Value, Value)> = Vec::new();
    let mut result: Vec<Instruction> = Vec::new();
    let mut counter: usize = 1;
    let n = program.len();
    for i in 0..n
        invariant
            n == program@.len(),
            n < usize::MAX,
            counter <= 1 + i,
            local_numbering(program@, 0, Seq::empty(), 1) == with_prefix(
                result@,
                local_numbering(program@, i as int, mapping@, counter as nat),
            ),
    {
        let ghost pre_result = result@;
        let ghost pre_mapping = mapping@;
        let ghost pre_counter = counter as nat;
        let inst = &program[i];
        match inst {
            Instruction::Int(dest, literal) => {
                let fresh = next_value(&mut counter);
                mapping.push((*dest, fresh));
                result.push(Instruction::Int(fresh, *literal));
                proof {
                    assert(local_numbering(program@, i as int, pre_mapping, pre_counter)
                        == with_prefix(
                        seq![Instruction::Int(fresh, *literal)],
                        local_numbering(program@, i + 1, mapping@, counter as nat),
                    ));
                    assert(result@ == pre_result + seq![Instruction::Int(fresh, *literal)]);
                    lemma_with_prefix_assoc(
                        pre_result,
                        seq![Instruction::Int(fresh, *literal)],
                        local_numbering(program@, i + 1, mapping@, counter as nat),
                    );
                }
            },
            Instruction::Move(dest, src) => {
                match find_binding(&mapping, *src) {
                    None => {
                        proof {
                            assert(local_numbering(program@, i as int, mapping@, counter as nat)
                                == Err::<Seq<Instruction>, _>(*src));
                        }
                        return Err(NumberingError::UndefinedValue(*src));
                    },
                    Some(sv) => {
                        let fresh = next_value(&mut counter);
                        mapping.push((*dest, fresh));
                        result.push(Instruction::Move(fresh, sv));
                        proof {
                            assert(local_numbering(program@, i as int, pre_mapping, pre_counter)
                                == with_prefix(
                                seq![Instruction::Move(fresh, sv)],
                                local_numbering(program@, i + 1, mapping@, counter as nat),
                            ));
                            assert(result@ == pre_result + seq![Instruction::Move(fresh, sv)]);
                            lemma_with_prefix_assoc(
                                pre_result,
                                seq![Instruction::Move(fresh, sv)],
                                local_numbering(program@, i + 1, mapping@, counter as nat),
                            );
                        }
                    },
                }
            },
            Instruction::ThreeOp(op, dest, lhs, rhs) => {
                let lv = match find_binding(&mapping, *lhs) {
                    None => {
                        proof {
                            assert(local_numbering(program@, i as int, mapping@, counter as nat)
                                == Err::<Seq<Instruction>, _>(*lhs));
                        }
                        return Err(NumberingError::UndefinedValue(*lhs));
                    },
                    Some(lv) => lv,
                };
                let rv = match find_binding(&mapping, *rhs) {
                    None => {
                        proof {
                            assert(local_numbering(program@, i as int, mapping@, counter as nat)
                                == Err::<Seq<Instruction>, _>(*rhs));
                        }
                        return Err(NumberingError::UndefinedValue(*rhs));
                    },
                    Some(rv) => rv,
                };
                let fresh = next_value(&mut counter);
                mapping.push((*dest, fresh));
                result.push(Instruction::ThreeOp(*op, fresh, lv, rv));
                proof {
                    assert(local_numbering(program@, i as int, pre_mapping, pre_counter)
                        == with_prefix(
                        seq![Instruction::ThreeOp(*op, fresh, lv, rv)],
                        local_numbering(program@, i + 1, mapping@, counter as nat),
                    ));
                    assert(result@ == pre_result + seq![Instruction::ThreeOp(*op, fresh, lv, rv)]);
                    lemma_with_prefix_assoc(
                        pre_result,
                        seq![Instruction::ThreeOp(*op, fresh, lv, rv)],
                        local_numbering(program@, i + 1, mapping@, counter as nat),
                    );
                }
            },
            _ => {
                proof {
                    assert(local_numbering(program@, i as int, mapping@, counter as nat)
                        == local_numbering(program@, i + 1, mapping@, counter as nat));
                }
            },
        }
    }
    proof {
        assert(local_numbering(program@, n as int, mapping@, counter as nat) == Ok::<
            _,
            Value,
        >(Seq::<Instruction>::empty()));
        assert(result@ + Seq::<Instruction>::empty() =~= result@);
    }
    Ok(result)
}

/// Prefixes compose through the remaining-computation glue.
proof fn lemma_with_prefix_assoc(
    a: Seq<Instruction>,
    b: Seq<Instruction>,
    r: Result<Seq<Instruction>, Value>,
)
    ensures
        with_prefix(a, with_prefix(b, r)) == with_prefix(a + b, r),
{
    match r {
        Ok(s) => {
            assert(a + (b + s) =~= (a + b) + s);
        },
        Err(_) => {},
    }
}

/// The destination a renamed instruction defines (the emitted kinds all
/// define one).
pub open spec fn dest_of(inst: Instruction) -> Value {
    match inst {
        Instruction::ThreeOp(_, dest, _, _) => dest,
        Instruction::Int(dest, _) => dest,
        Instruction::Move(dest, _) => dest,
        Instruction::Label(_) => Value(0),
        Instruction::Bnz(_, _) => Value(0),
        Instruction::Jump(_) => Value(0),
    }
}

/// Local renaming hands out strictly increasing identities: every emitted
/// definition is at least the entry counter, and later definitions are
/// strictly larger.
proof fn lemma_numbering_increases(
    prog: Seq<Instruction>,
    i: int,
    m: Seq<(Value, Value)>,
    counter: nat,
)
    requires
        local_numbering(prog, i, m, counter) is Ok,
        i <= prog.len(),
        counter + prog.len() - i <= usize::MAX,
        counter >= 1,
    ensures
        forall|k: int|
            0 <= k < local_numbering(prog, i, m, counter)->Ok_0.len() ==> (#[trigger] dest_of(
                local_numbering(prog, i, m, counter)->Ok_0[k],
            ).0 as nat) >= counter,
        forall|k1: int, k2: int|
            0 <= k1 < k2 < local_numbering(prog, i, m, counter)->Ok_0.len() ==> (dest_of(
                #[trigger] local_numbering(prog, i, m, counter)->Ok_0[k1],
            ).0 as nat) < (dest_of(
                #[trigger] local_numbering(prog, i, m, counter)->Ok_0[k2],
            ).0 as nat),
    decreases prog.len() - i,
{
    if 0 <= i < prog.len() {
        let out = local_numbering(prog, i, m, counter)->Ok_0;
        match prog[i] {
            Instruction::Int(dest, literal) => {
                let m2 = m.push((dest, Value(counter as usize)));
                lemma_numbering_increases(prog, i + 1, m2, counter + 1);
                let rest = local_numbering(prog, i + 1, m2, counter + 1)->Ok_0;
                assert(out == seq![
                    Instruction::Int(Value(counter as usize), literal),
                ] + rest);
                assert(forall|k: int| 1 <= k < out.len() ==> out[k] == rest[k - 1]);
            },
            Instruction::Move(dest, src) => {
                let sv = lookup(m, src)->Some_0;
                let m2 = m.push((dest, Value(counter as usize)));
                lemma_numbering_increases(prog, i + 1, m2, counter + 1);
                let rest = local_numbering(prog, i + 1, m2, counter + 1)->Ok_0;
                assert(out == seq![
                    Instruction::Move(Value(counter as usize), sv),
                ] + rest);
                assert(forall|k: int| 1 <= k < out.len() ==> out[k] == rest[k - 1]);
            },
            Instruction::ThreeOp(op, dest, lhs, rhs) => {
                let lv = lookup(m, lhs)->Some_0;
                let rv = lookup(m, rhs)->Some_0;
                let m2 = m.push((dest, Value(counter as usize)));
                lemma_numbering_increases(prog, i + 1, m2, counter + 1);
                let rest = local_numbering(prog, i + 1, m2, counter + 1)->Ok_0;
                assert(out == seq![
                    Instruction::ThreeOp(op, Value(counter as usize), lv, rv),
                ] + rest);
                assert(forall|k: int| 1 <= k < out.len() ==> out[k] == rest[k - 1]);
            },
            _ => {
                lemma_numbering_increases(prog, i + 1, m, counter);
            },
        }
    }
}

/// The local half of the SSA uniqueness property: after local renaming,
/// every emitted instruction defines a distinct identity — each identity
/// has exactly one defining site in the renamed program.
pub proof fn lemma_local_renaming_unique_defs(prog: Seq<Instruction>, out: Seq<Instruction>)
    requires
        prog.len() < usize::MAX,
        local_numbering(prog, 0, Seq::empty(), 1) == Ok::<_, Value>(out),
    ensures
        forall|k1: int, k2: int|
            0 <= k1 < k2 < out.len() ==> dest_of(#[trigger] out[k1]) != dest_of(
                #[trigger] out[k2],
            ),
{
    lemma_numbering_increases(prog, 0, Seq::empty(), 1);
    assert forall|k1: int, k2: int|
        0 <= k1 < k2 < out.len() implies dest_of(#[trigger] out[k1]) != dest_of(
        #[trigger] out[k2],
    ) by {
        assert(local_numbering(prog, 0, Seq::empty(), 1)->Ok_0 == out);
        assert((dest_of(local_numbering(prog, 0, Seq::empty(), 1)->Ok_0[k1]).0 as nat) < (
        dest_of(local_numbering(prog, 0, Seq::empty(), 1)->Ok_0[k2]).0 as nat));
    }
}

} // verus!
