//! The whole-module renaming pass: walks the dominator tree in preorder and
//! gives every definition (instruction destination or block parameter) a
//! fresh identity, rewriting every use to the identity recorded for it.

use crate::basic_block::Terminator;
use crate::dominance::dom_ok;
use crate::graph::{marks_before, Graph};
use crate::instruction::{Instruction, Value};
use crate::module::Module;
use vstd::prelude::*;

verus! {

/// One block's contents as plain mathematics: parameters, instructions,
/// terminator.
pub open spec fn mview(m: Module) -> Seq<(Seq<Value>, Seq<Instruction>, Terminator)> {
    Seq::new(
        m.blocks@.len(),
        |i: int| (m.blocks@[i].params@, m.blocks@[i].instructions@, m.blocks@[i].terminator),
    )
}

/// The most recent binding of `k`, scanning the renaming history from the
/// newest entry back.
pub open spec fn binding_of(m: Seq<(Value, Value)>, k: Value) -> Option<Value>
    decreases m.len(),
{
    if m.len() == 0 {
        None
    } else if m.last().0 == k {
        Some(m.last().1)
    } else {
        binding_of(m.drop_last(), k)
    }
}

/// Renaming a block's parameter list from position `j` on: each parameter
/// becomes the next fresh identity and the old one is bound to it.
pub open spec fn rename_params(
    ps: Seq<Value>,
    m: Seq<(Value, Value)>,
    counter: nat,
    j: int,
) -> (Seq<Value>, Seq<(Value, Value)>, nat)
    decreases ps.len() - j,
{
    if j < 0 || j >= ps.len() {
        (ps, m, counter)
    } else {
        rename_params(
            ps.update(j, Value(counter as usize)),
            m.push((ps[j], Value(counter as usize))),
            counter + 1,
            j + 1,
        )
    }
}

/// Renaming a block's instructions from position `j` on, exactly as in the
/// local variant: operands are rewritten through the recorded bindings
/// first, then the destination gets the next fresh identity; an operand
/// with no binding is the undefined-value condition.
pub open spec fn rename_instrs(
    instrs: Seq<Instruction>,
    m: Seq<(Value, Value)>,
    counter: nat,
    j: int,
) -> Result<(Seq<Instruction>, Seq<(Value, Value)>, nat), Value>
    decreases instrs.len() - j,
{
    if j < 0 || j >= instrs.len() {
        Ok((instrs, m, counter))
    } else {
        match instrs[j] {
            Instruction::Int(dest, literal) => {
                let fresh = Value(counter as usize);
                rename_instrs(
                    instrs.update(j, Instruction::Int(fresh, literal)),
                    m.push((dest, fresh)),
                    counter + 1,
                    j + 1,
                )
            },
            Instruction::Move(dest, src) => {
                match binding_of(m, src) {
                    None => Err(src),
                    Some(sv) => {
                        let fresh = Value(counter as usize);
                        rename_instrs(
                            instrs.update(j, Instruction::Move(fresh, sv)),
                            m.push((dest, fresh)),
                            counter + 1,
                            j + 1,
                        )
                    },
                }
            },
            Instruction::BinOp(op, dest, lhs, rhs) => {
                match binding_of(m, lhs) {
                    None => Err(lhs),
                    Some(lv) => {
                        match binding_of(m, rhs) {
                            None => Err(rhs),
                            Some(rv) => {
                                let fresh = Value(counter as usize);
                                rename_instrs(
                                    instrs.update(j, Instruction::BinOp(op, fresh, lv, rv)),
                                    m.push((dest, fresh)),
                                    counter + 1,
                                    j + 1,
                                )
                            },
                        }
                    },
                }
            },
        }
    }
}

/// Renaming a terminator's use: the value it reads is rewritten through the
/// recorded bindings (targets never change); a read with no binding is the
/// undefined-value condition.
pub open spec fn rename_term(t: Terminator, m: Seq<(Value, Value)>) -> Result<Terminator, Value> {
    match t {
        Terminator::Return(v) => match binding_of(m, v) {
            None => Err(v),
            Some(rv) => Ok(Terminator::Return(rv)),
        },
        Terminator::Branch(c, x, y) => match binding_of(m, c) {
            None => Err(c),
            Some(cv) => Ok(Terminator::Branch(cv, x, y)),
        },
        _ => Ok(t),
    }
}

/// True when block `c` is a dominator-tree child of `b` not yet placed on
/// the walk.
pub open spec fn is_new_child(
    doms: Seq<Option<usize>>,
    pushed: Seq<bool>,
    b: usize,
    c: int,
) -> bool {
    c != b && doms[c] == Some(b) && !pushed[c]
}

/// The dominator-tree children of `b` found among the first `c` blocks, in
/// ascending order, skipping blocks already placed on the walk.
pub open spec fn children_upto(
    doms: Seq<Option<usize>>,
    pushed: Seq<bool>,
    b: usize,
    c: int,
) -> Seq<usize>
    decreases c,
{
    if c <= 0 {
        Seq::empty()
    } else {
        children_upto(doms, pushed, b, c - 1) + (if is_new_child(doms, pushed, b, c - 1) {
            seq![(c - 1) as usize]
        } else {
            Seq::empty()
        })
    }
}

/// The walk state is well formed: the marks cover the blocks and every
/// pending entry is a marked block of the module.
pub open spec fn walk_wf(
    mv: Seq<(Seq<Value>, Seq<Instruction>, Terminator)>,
    doms: Seq<Option<usize>>,
    stack: Seq<(usize, Seq<(Value, Value)>)>,
    pushed: Seq<bool>,
) -> bool {
    &&& pushed.len() == mv.len()
    &&& doms.len() == mv.len()
    &&& mv.len() <= usize::MAX
    &&& forall|t: int| 0 <= t < stack.len() ==> (#[trigger] stack[t].0 as int) < mv.len()
}

/// The whole renaming walk over the remaining stack: blocks come off the
/// stack in order; each has its parameters, instructions and terminator
/// renamed under its inherited bindings, and its unwalked dominator-tree
/// children join the stack with a copy of the resulting bindings.
pub open spec fn rename_walk(
    mv: Seq<(Seq<Value>, Seq<Instruction>, Terminator)>,
    doms: Seq<Option<usize>>,
    stack: Seq<(usize, Seq<(Value, Value)>)>,
    pushed: Seq<bool>,
    counter: nat,
) -> Result<Seq<(Seq<Value>, Seq<Instruction>, Terminator)>, Value>
    decreases mv.len() - marks_before(pushed, pushed.len() as int), stack.len(),
        when walk_wf(mv, doms, stack, pushed) via rename_walk_decreases
{
    if stack.len() == 0 {
        Ok(mv)
    } else {
        let b = stack.last().0;
        let m0 = stack.last().1;
        let bv = mv[b as int];
        let (ps, m1, c1) = rename_params(bv.0, m0, counter, 0);
        match rename_instrs(bv.1, m1, c1, 0) {
            Err(e) => Err(e),
            Ok((instrs, m2, c2)) => {
                match rename_term(bv.2, m2) {
                    Err(e) => Err(e),
                    Ok(t2) => {
                        let kids = children_upto(doms, pushed, b, mv.len() as int);
                        rename_walk(
                            mv.update(b as int, (ps, instrs, t2)),
                            doms,
                            stack.drop_last() + kids.map_values(|c: usize| (c, m2)),
                            Seq::new(
                                pushed.len(),
                                |i: int| pushed[i] || is_new_child(doms, pushed, b, i),
                            ),
                            c2,
                        )
                    },
                }
            },
        }
    }
}

/// New marks never unmark, and a new child strictly grows the mark count.
proof fn lemma_marks_pointwise(a: Seq<bool>, b: Seq<bool>, j: int)
    requires
        a.len() == b.len(),
        0 <= j <= a.len(),
        forall|i: int| 0 <= i < a.len() ==> (a[i] ==> b[i]),
    ensures
        marks_before(a, j) <= marks_before(b, j),
        (exists|w: int| 0 <= w < j && !a[w] && b[w]) ==> marks_before(a, j) < marks_before(b, j),
    decreases j,
{
    if j > 0 {
        lemma_marks_pointwise(a, b, j - 1);
        if exists|w: int| 0 <= w < j && !a[w] && b[w] {
            let w = choose|w: int| 0 <= w < j && !a[w] && b[w];
            if w < j - 1 {
                assert(exists|w2: int| 0 <= w2 < j - 1 && !a[w2] && b[w2]);
            }
        }
    }
}

/// A listed child really is a new child.
proof fn lemma_children_upto_sound(
    doms: Seq<Option<usize>>,
    pushed: Seq<bool>,
    b: usize,
    c: int,
    k: int,
)
    requires
        0 <= k < children_upto(doms, pushed, b, c).len(),
        c <= usize::MAX,
    ensures
        (children_upto(doms, pushed, b, c)[k] as int) < c,
        is_new_child(doms, pushed, b, children_upto(doms, pushed, b, c)[k] as int),
    decreases c,
{
    if c > 0 {
        let pre = children_upto(doms, pushed, b, c - 1);
        if k < pre.len() {
            lemma_children_upto_sound(doms, pushed, b, c - 1, k);
        } else {
            assert(is_new_child(doms, pushed, b, c - 1));
            assert(children_upto(doms, pushed, b, c)[k] == (c - 1) as usize);
        }
    }
}

/// The walk terminates: a step either marks a new block or shortens the
/// stack.
#[via_fn]
proof fn rename_walk_decreases(
    mv: Seq<(Seq<Value>, Seq<Instruction>, Terminator)>,
    doms: Seq<Option<usize>>,
    stack: Seq<(usize, Seq<(Value, Value)>)>,
    pushed: Seq<bool>,
    counter: nat,
)
{
    crate::graph::lemma_marks_le(pushed, pushed.len() as int);
    if stack.len() > 0 {
        let b = stack.last().0;
        let kids = children_upto(doms, pushed, b, mv.len() as int);
        let pushed2 = Seq::new(
            pushed.len(),
            |i: int| pushed[i] || is_new_child(doms, pushed, b, i),
        );
        lemma_marks_pointwise(pushed, pushed2, pushed.len() as int);
        crate::graph::lemma_marks_le(pushed2, pushed2.len() as int);
        if kids.len() > 0 {
            lemma_children_upto_sound(doms, pushed, b, mv.len() as int, 0);
            let w = kids[0] as int;
            assert(!pushed[w] && pushed2[w]);
            assert(marks_before(pushed, pushed.len() as int) < marks_before(
                pushed2,
                pushed2.len() as int,
            ));
        } else {
            assert(pushed2 =~= pushed) by {
                assert forall|i: int| 0 <= i < pushed.len() implies pushed2[i] == pushed[i] by {
                    if is_new_child(doms, pushed, b, i) {
                        assert(children_upto(doms, pushed, b, i + 1).len() > 0);
                        lemma_children_prefix(doms, pushed, b, i + 1, mv.len() as int);
                    }
                }
            }
        }
    }
}

/// A child found early is still found by the longer scan.
proof fn lemma_children_prefix(
    doms: Seq<Option<usize>>,
    pushed: Seq<bool>,
    b: usize,
    c1: int,
    c2: int,
)
    requires
        0 <= c1 <= c2,
        children_upto(doms, pushed, b, c1).len() > 0,
    ensures
        children_upto(doms, pushed, b, c2).len() > 0,
    decreases c2 - c1,
{
    if c1 < c2 {
        lemma_children_prefix(doms, pushed, b, c1 + 1, c2);
    }
}

/// What the whole pass does: for a module with blocks, a dominator array
/// for its graph view witnesses the outcome — either every visited block's
/// view was renamed exactly as the walk from the entry block computes, or
/// the walk hit a use with no recorded binding and that value is reported.
/// An empty module is returned unchanged.
pub open spec fn renaming(m0: Module, m1: Module, r: Result<(), crate::error::IrError>) -> bool {
    if m0.blocks@.len() == 0 {
        m1 == m0 && r is Ok
    } else {
        exists|doms: Seq<Option<usize>>|
            #[trigger] dom_ok(crate::ssa::module_adj(m0), 0, doms) && {
                let walk = rename_walk(
                    mview(m0),
                    doms,
                    seq![(0usize, Seq::<(Value, Value)>::empty())],
                    Seq::new(m0.blocks@.len(), |i: int| i == 0),
                    1,
                );
                match r {
                    Ok(_) => walk == Ok::<_, Value>(mview(m1)),
                    Err(e) => walk is Err && e == crate::error::IrError::UndefinedValue(
                        walk->Err_0,
                    ),
                }
            }
    }
}

/// The two instructions have the same shape: the same kind, operation and
/// literal; only the value identities may differ.
pub open spec fn same_shape(a: Instruction, b: Instruction) -> bool {
    match (a, b) {
        (Instruction::BinOp(op1, _, _, _), Instruction::BinOp(op2, _, _, _)) => op1 == op2,
        (Instruction::Move(_, _), Instruction::Move(_, _)) => true,
        (Instruction::Int(_, l1), Instruction::Int(_, l2)) => l1 == l2,
        _ => false,
    }
}

/// The two terminators have the same shape and the same targets: renaming
/// never changes the control-flow topology, only the value it reads.
pub open spec fn term_shape(a: Terminator, b: Terminator) -> bool {
    match (a, b) {
        (Terminator::Unset, Terminator::Unset) => true,
        (Terminator::ReturnVoid, Terminator::ReturnVoid) => true,
        (Terminator::Return(_), Terminator::Return(_)) => true,
        (Terminator::Jump(t1), Terminator::Jump(t2)) => t1 == t2,
        (Terminator::Branch(_, x1, y1), Terminator::Branch(_, x2, y2)) => x1 == x2 && y1 == y2,
        _ => false,
    }
}

/// What renaming preserves even on the abort path: the block count, each
/// block's parameter count and instruction count, every instruction's
/// shape, and every terminator's shape and targets.
pub open spec fn rename_shape(m0: Module, m1: Module) -> bool {
    &&& m1.blocks@.len() == m0.blocks@.len()
    &&& forall|bi: int|
        0 <= bi < m0.blocks@.len() ==> {
            &&& (#[trigger] m1.blocks@[bi]).params@.len() == m0.blocks@[bi].params@.len()
            &&& m1.blocks@[bi].instructions@.len() == m0.blocks@[bi].instructions@.len()
            &&& (forall|j: int|
                0 <= j < m0.blocks@[bi].instructions@.len() ==> same_shape(
                    m0.blocks@[bi].instructions@[j],
                    #[trigger] m1.blocks@[bi].instructions@[j],
                ))
            &&& term_shape(m0.blocks@[bi].terminator, m1.blocks@[bi].terminator)
        }
}

/// The destination an instruction defines.
pub open spec fn dest_of(inst: Instruction) -> Value {
    match inst {
        Instruction::BinOp(_, dest, _, _) => dest,
        Instruction::Move(dest, _) => dest,
        Instruction::Int(dest, _) => dest,
    }
}

/// How many definition sites block `b` has: one per parameter, one per
/// instruction.
pub open spec fn def_count(m: Module, b: int) -> int {
    m.blocks@[b].params@.len() as int + m.blocks@[b].instructions@.len() as int
}

/// The value defined at position `pos` of block `b`: the parameters first,
/// then the instruction destinations.
pub open spec fn def_at(m: Module, b: int, pos: int) -> Value {
    if pos < m.blocks@[b].params@.len() {
        m.blocks@[b].params@[pos]
    } else {
        dest_of(m.blocks@[b].instructions@[pos - m.blocks@[b].params@.len()])
    }
}

/// The SSA uniqueness property over the reachable blocks: any two distinct
/// definition sites define distinct identities. (Unreachable blocks are
/// never visited or renamed, so their stale identities are left out.)
pub open spec fn unique_defs(m0: Module, m1: Module) -> bool {
    forall|b1: usize, b2: usize, p1: int, p2: int|
        #![trigger def_at(m1, b1 as int, p1), def_at(m1, b2 as int, p2)]
        crate::graph::reachable(crate::ssa::module_adj(m0), 0, b1) && crate::graph::reachable(
            crate::ssa::module_adj(m0),
            0,
            b2,
        ) && (b1 as int) < m1.blocks@.len() && (b2 as int) < m1.blocks@.len() && 0 <= p1
            < def_count(m1, b1 as int) && 0 <= p2 < def_count(m1, b2 as int) && !(b1 == b2 && p1
            == p2) ==> def_at(m1, b1 as int, p1) != def_at(m1, b2 as int, p2)
}

/// Every definition site of a processed block carries an identity in
/// `[1, bound)`.
pub open spec fn defs_below(m: Module, processed: Seq<bool>, bound: int) -> bool {
    forall|bb: usize, pos: int|
        (bb as int) < processed.len() && processed[bb as int] && 0 <= pos < def_count(
            m,
            bb as int,
        ) ==> 1 <= (#[trigger] def_at(m, bb as int, pos)).0 < bound
}

/// Distinct definition sites of processed blocks carry distinct identities.
pub open spec fn defs_distinct(m: Module, processed: Seq<bool>) -> bool {
    forall|b1: usize, b2: usize, p1: int, p2: int|
        #![trigger def_at(m, b1 as int, p1), def_at(m, b2 as int, p2)]
        (b1 as int) < processed.len() && (b2 as int) < processed.len() && processed[b1 as int]
            && processed[b2 as int] && 0 <= p1 < def_count(m, b1 as int) && 0 <= p2 < def_count(
            m,
            b2 as int,
        ) && !(b1 == b2 && p1 == p2) ==> def_at(m, b1 as int, p1) != def_at(m, b2 as int, p2)
}

/// Every dominator-tree child of a processed block has joined the walk.
pub open spec fn kids_pushed(
    doms: Seq<Option<usize>>,
    processed: Seq<bool>,
    pushed: Seq<bool>,
) -> bool {
    forall|p: usize, c: usize|
        #![trigger processed[p as int], doms[c as int]]
        (p as int) < doms.len() && (c as int) < doms.len() && processed[p as int] && c != p
            && doms[c as int] == Some(p) ==> pushed[c as int]
}

/// Definition-site facts carry over to a module that agrees on every
/// processed block.
proof fn lemma_defs_transfer(pre: Module, cur: Module, processed: Seq<bool>, bound: int)
    requires
        forall|bb: int|
            0 <= bb < processed.len() && processed[bb] ==> #[trigger] cur.blocks@[bb]
                == pre.blocks@[bb],
        defs_below(pre, processed, bound),
        defs_distinct(pre, processed),
    ensures
        defs_below(cur, processed, bound),
        defs_distinct(cur, processed),
{
    assert forall|bb: usize, pos: int|
        (bb as int) < processed.len() && processed[bb as int] && 0 <= pos < def_count(
            cur,
            bb as int,
        ) implies 1 <= (#[trigger] def_at(cur, bb as int, pos)).0 < bound by {
        assert(cur.blocks@[bb as int] == pre.blocks@[bb as int]);
        assert(def_count(cur, bb as int) == def_count(pre, bb as int));
        assert(def_at(cur, bb as int, pos) == def_at(pre, bb as int, pos));
    }
    assert forall|b1: usize, b2: usize, p1: int, p2: int|
        #![trigger def_at(cur, b1 as int, p1), def_at(cur, b2 as int, p2)]
        (b1 as int) < processed.len() && (b2 as int) < processed.len() && processed[b1 as int]
            && processed[b2 as int] && 0 <= p1 < def_count(cur, b1 as int) && 0 <= p2 < def_count(
            cur,
            b2 as int,
        ) && !(b1 == b2 && p1 == p2) implies def_at(cur, b1 as int, p1) != def_at(
        cur,
        b2 as int,
        p2,
    ) by {
        assert(cur.blocks@[b1 as int] == pre.blocks@[b1 as int]);
        assert(cur.blocks@[b2 as int] == pre.blocks@[b2 as int]);
        assert(def_count(cur, b1 as int) == def_count(pre, b1 as int));
        assert(def_count(cur, b2 as int) == def_count(pre, b2 as int));
        assert(def_at(cur, b1 as int, p1) == def_at(pre, b1 as int, p1));
        assert(def_at(cur, b2 as int, p2) == def_at(pre, b2 as int, p2));
    }
}

/// A processed set that contains the start block and is closed under
/// dominator-tree children contains every block with a recorded dominator.
proof fn lemma_processed_covers(
    adj: Seq<Seq<usize>>,
    start: usize,
    rpo: Seq<usize>,
    doms: Seq<Option<usize>>,
    processed: Seq<bool>,
    b: usize,
)
    requires
        crate::dominance::dom_ok_with(adj, start, rpo, doms),
        processed.len() == doms.len(),
        processed[start as int],
        forall|p: usize, c: usize|
            #![trigger processed[p as int], doms[c as int]]
            (p as int) < doms.len() && (c as int) < doms.len() && processed[p as int] && c != p
                && doms[c as int] == Some(p) ==> processed[c as int],
        (b as int) < doms.len(),
        doms[b as int] is Some,
    ensures
        processed[b as int],
    decreases crate::dominance::rank_of(rpo, b),
{
    crate::dominance::lemma_slot(start, rpo, doms, b);
    crate::dominance::lemma_rank(rpo, b);
    if b != start {
        let parent = crate::dominance::dval(doms, b);
        crate::dominance::lemma_rank(rpo, parent);
        assert(crate::dominance::rank_of(rpo, parent) >= 0);
        lemma_processed_covers(adj, start, rpo, doms, processed, parent);
        assert(doms[b as int] == Some(parent));
        assert(b != parent) by {
            assert(crate::dominance::rank_of(rpo, parent) < crate::dominance::rank_of(rpo, b));
        }
    }
}

/// Rewrites a use through the recorded bindings; reports the value itself
/// when it has no binding (a use with no reaching definition).
fn resolve(mapping: &Vec<(Value, Value)>, k: Value) -> (r: Option<Value>)
    ensures
        r == binding_of(mapping@, k),
{
    let mut i = mapping.len();
    proof {
        assert(mapping@.take(mapping@.len() as int) =~= mapping@);
    }
    while i > 0
        invariant
            i <= mapping@.len(),
            binding_of(mapping@, k) == binding_of(mapping@.take(i as int), k),
        decreases i,
    {
        let ghost pre = mapping@.take(i as int);
        i = i - 1;
        if mapping[i].0 == k {
            proof {
                assert(pre.last() == mapping@[i as int]);
            }
            return Some(mapping[i].1);
        }
        proof {
            assert(pre.last() == mapping@[i as int]);
            assert(pre.drop_last() =~= mapping@.take(i as int));
        }
    }
    proof {
        assert(mapping@.take(0) =~= Seq::<(Value, Value)>::empty());
    }
    None
}

/// Copies a renaming history so a dominator-tree child starts from its
/// parent's bindings without seeing its siblings' later ones.
fn clone_bindings(m: &Vec<(Value, Value)>) -> (r: Vec<(Value, Value)>)
    ensures
        r@ == m@,
{
    let mut r: Vec<(Value, Value)> = Vec::new();
    let len = m.len();
    for i in 0..len
        invariant
            len == m@.len(),
            r@ == m@.take(i as int),
    {
        r.push(m[i]);
        assert(r@ =~= m@.take(i + 1));
    }
    assert(r@ =~= m@);
    r
}

/// The walk's state viewed as mathematics.
pub open spec fn stack_view(s: Seq<(usize, Vec<(Value, Value)>)>) -> Seq<
    (usize, Seq<(Value, Value)>),
> {
    s.map_values(|e: (usize, Vec<(Value, Value)>)| (e.0, e.1@))
}

/// The number of definition sites (parameters and instructions) of block
/// `i`.
pub open spec fn block_size(m: Module, i: int) -> int {
    m.blocks@[i].params@.len() as int + m.blocks@[i].instructions@.len() as int
}

/// The definition sites of the marked blocks among the first `k`.
pub open spec fn sizes_marked(m: Module, marks: Seq<bool>, k: int) -> int
    decreases k,
{
    if k <= 0 {
        0
    } else {
        sizes_marked(m, marks, k - 1) + (if marks[k - 1] {
            block_size(m, k - 1)
        } else {
            0
        })
    }
}

/// The definition sites of the first `k` blocks.
pub open spec fn sizes_all(m: Module, k: int) -> int
    decreases k,
{
    if k <= 0 {
        0
    } else {
        sizes_all(m, k - 1) + block_size(m, k - 1)
    }
}

/// The number of definition sites of the whole module: the most fresh
/// identities one renaming run can consume.
pub open spec fn def_total(m: Module) -> int {
    sizes_all(m, m.blocks@.len() as int)
}

/// A marked sum never exceeds the whole and never goes negative.
proof fn lemma_sizes_le(m: Module, marks: Seq<bool>, k: int)
    ensures
        0 <= sizes_marked(m, marks, k) <= sizes_all(m, k),
    decreases k,
{
    if k > 0 {
        lemma_sizes_le(m, marks, k - 1);
    }
}

/// Marking one more block adds exactly its definition sites.
proof fn lemma_sizes_update(m: Module, marks: Seq<bool>, i: int, k: int)
    requires
        0 <= i < marks.len(),
        k <= marks.len(),
        !marks[i],
    ensures
        sizes_marked(m, marks.update(i, true), k) == sizes_marked(m, marks, k) + (if i < k {
            block_size(m, i)
        } else {
            0
        }),
    decreases k,
{
    if k > 0 {
        lemma_sizes_update(m, marks, i, k - 1);
    }
}

/// Renames the whole module to SSA form: blocks are visited in
/// dominator-tree preorder (so a block's renamed definitions are recorded
/// before any block it dominates is processed); on entry each block's
/// parameters get fresh identities, then its instructions are processed as
/// in the local variant — operands are rewritten through the recorded
/// bindings before the destination gets its fresh identity — and finally
/// the terminator's use is rewritten. Each child starts from a copy of its
/// parent's bindings, scoping them to the dominator subtree. A use with no
/// recorded binding is a malformed-IR condition and is reported; the pass
/// then aborts, promising only the preserved shapes. Unreachable blocks are
/// never visited and stay untouched.
#[verifier::rlimit(100)]
#[verifier::spinoff_prover]
pub fn global_value_numbering(module: &mut Module) -> (r: Result<(), crate::error::IrError>)
    requires
        old(module).targets_in_range(),
        1 + def_total(*old(module)) <= usize::MAX,
    ensures
        rename_shape(*old(module), *final(module)),
        renaming(*old(module), *final(module), r),
        r is Ok ==> unique_defs(*old(module), *final(module)),
{
    let ghost m0 = *old(module);
    let n = module.blocks.len();
    if n == 0 {
        return Ok(());
    }
    let graph = Graph::from_module(module);
    proof {
        assert forall|i: int|
            0 <= i < graph@.len() implies #[trigger] graph@[i] == crate::ssa::module_adj(m0)[i] by {
            assert(graph@[i] == graph.nodes@[i]@);
            assert(graph.nodes@[i]@ == module.succ_of(i));
            assert(crate::ssa::module_adj(m0)[i] == m0.blocks@[i].terminator.successors());
        }
        assert(graph@ =~= crate::ssa::module_adj(m0));
    }
    let idoms = graph.compute_dominator_tree(0);
    let ghost doms = idoms@;
    let mut counter: usize = 1;
    let mut pushed: Vec<bool> = Vec::new();
    for v in 0..n
        invariant
            pushed@.len() == v,
            forall|k: int| 0 <= k < v ==> !pushed@[k],
    {
        pushed.push(false);
    }
    pushed[0] = true;
    let mut stack: Vec<(usize, Vec<(Value, Value)>)> = Vec::new();
    stack.push((0, Vec::new()));
    let mut fail: Option<Value> = None;
    let ghost target = rename_walk(
        mview(m0),
        doms,
        seq![(0usize, Seq::<(Value, Value)>::empty())],
        Seq::new(m0.blocks@.len(), |i: int| i == 0),
        1,
    );
    let ghost mut processed: Seq<bool> = Seq::new(n as nat, |i: int| false);
    proof {
        crate::graph::lemma_marks_update(Seq::new(n as nat, |k: int| false), 0, n as int);
        crate::graph::lemma_marks_le(pushed@, n as int);
        assert(pushed@ =~= Seq::new(m0.blocks@.len(), |i: int| i == 0));
        assert(stack_view(stack@) =~= seq![(0usize, Seq::<(Value, Value)>::empty())]);
        assert(sizes_marked(m0, processed, n as int) == 0) by {
            lemma_sizes_zero(m0, processed, n as int);
        }
        lemma_sizes_le(m0, processed, n as int);
        assert(mview(*module) =~= mview(m0));
        assert(rename_shape(m0, *module));
        assert(stack@[0].0 == 0);
    }
    while stack.len() > 0
        invariant
            n == module.blocks@.len(),
            n == m0.blocks@.len(),
            n > 0,
            doms.len() == n,
            idoms@ == doms,
            pushed@.len() == n,
            processed.len() == n,
            rename_shape(m0, *module),
            1 + def_total(m0) <= usize::MAX,
            crate::graph::marks_before(pushed@, n as int) <= n,
            counter as int <= 1 + sizes_marked(m0, processed, n as int),
            sizes_marked(m0, processed, n as int) <= def_total(m0),
            forall|i: int| 0 <= i < n && processed[i] ==> pushed@[i],
            forall|t: int| 0 <= t < stack@.len() ==> (#[trigger] stack@[t].0 as int) < n,
            forall|t: int| 0 <= t < stack@.len() ==> pushed@[#[trigger] stack@[t].0 as int],
            forall|t: int| 0 <= t < stack@.len() ==> !processed[#[trigger] stack@[t].0 as int],
            forall|t1: int, t2: int|
                0 <= t1 < t2 < stack@.len() ==> (#[trigger] stack@[t1]).0 != (
                #[trigger] stack@[t2]).0,
            counter >= 1,
            pushed@[0int],
            fail is None ==> defs_below(*module, processed, counter as int),
            fail is None ==> defs_distinct(*module, processed),
            fail is None ==> kids_pushed(doms, processed, pushed@),
            fail is None ==> (forall|bb: int|
                #![trigger pushed@[bb]]
                0 <= bb < n ==> (pushed@[bb] <==> (processed[bb] || exists|t: int|
                    0 <= t < stack@.len() && (#[trigger] stack@[t]).0 == bb))),
            match fail {
                None => rename_walk(
                    mview(*module),
                    doms,
                    stack_view(stack@),
                    pushed@,
                    counter as nat,
                ) == target,
                Some(v) => target == Err::<Seq<(Seq<Value>, Seq<Instruction>, Terminator)>, _>(v)
                    && stack@.len() == 0,
            },
        decreases (n as int) - crate::graph::marks_before(pushed@, n as int), stack@.len(),
    {
        let ghost mv_top = mview(*module);
        let ghost sv_top = stack_view(stack@);
        let ghost pushed_top = pushed@;
        let ghost c_top = counter as nat;
        let ghost raw_top = stack@;
        let top = stack.pop().unwrap();
        let b = top.0;
        let mut map = top.1;
        let ghost m0b = map@;
        proof {
            assert(sv_top.last() == (b, m0b));
            assert(stack_view(stack@) =~= sv_top.drop_last());
            assert(!processed[b as int]);
            assert(stack@ == raw_top.drop_last());
            assert(raw_top[raw_top.len() - 1].0 == b);
            if fail is None {
                assert forall|bb: int| #![trigger pushed@[bb]] 0 <= bb < n implies (pushed@[bb]
                    <==> (processed[bb] || bb == b || exists|t: int|
                    0 <= t < stack@.len() && (#[trigger] stack@[t]).0 == bb)) by {
                    if pushed@[bb] && !processed[bb] && bb != b {
                        let t = choose|t: int|
                            0 <= t < raw_top.len() && (#[trigger] raw_top[t]).0 == bb;
                        assert(t < raw_top.len() - 1);
                        assert(stack@[t].0 == bb);
                    }
                    if exists|t: int| 0 <= t < stack@.len() && (#[trigger] stack@[t]).0 == bb {
                        let t = choose|t: int|
                            0 <= t < stack@.len() && (#[trigger] stack@[t]).0 == bb;
                        assert(raw_top[t].0 == bb);
                        assert(pushed@[bb]);
                    }
                }
            }
            lemma_sizes_update(m0, processed, b as int, n as int);
            lemma_sizes_le(m0, processed.update(b as int, true), n as int);
            assert(c_top + block_size(m0, b as int) <= usize::MAX);
            assert(block_size(m0, b as int) == module.blocks@[b as int].params@.len()
                + module.blocks@[b as int].instructions@.len());
        }
        // (a) fresh identities for the block parameters.
        let plen = module.blocks[b].params.len();
        let ghost ilen_g = module.blocks@[b as int].instructions@.len();
        for j in 0..plen
            invariant
                n == module.blocks@.len(),
                n == m0.blocks@.len(),
                (b as int) < n,
                plen == module.blocks@[b as int].params@.len(),
                ilen_g == module.blocks@[b as int].instructions@.len(),
                plen + ilen_g == block_size(m0, b as int),
                c_top + block_size(m0, b as int) <= usize::MAX,
                counter as int == c_top + j,
                c_top >= 1,
                processed.len() == n,
                !processed[b as int],
                defs_below(*module, processed, c_top as int),
                defs_distinct(*module, processed),
                forall|j2: int|
                    0 <= j2 < j ==> module.blocks@[b as int].params@[j2] == Value((c_top
                        + j2) as usize),
                rename_shape(m0, *module),
                module.blocks@[b as int].instructions@ == mv_top[b as int].1,
                module.blocks@[b as int].terminator == mv_top[b as int].2,
                forall|bi: int|
                    0 <= bi < n && bi != b ==> mview(*module)[bi] == #[trigger] mv_top[bi],
                rename_params(mv_top[b as int].0, m0b, c_top, 0) == rename_params(
                    module.blocks@[b as int].params@,
                    map@,
                    counter as nat,
                    j as int,
                ),
        {
            let orig = module.blocks[b].params[j];
            assert(counter < usize::MAX);
            let fresh = Value(counter);
            counter = counter + 1;
            let ghost pre_m = *module;
            let ghost pre_map = map@;
            let blk = &mut module.blocks[b];
            blk.params[j] = fresh;
            map.push((orig, fresh));
            proof {
                assert(module.blocks@[b as int].params@ == pre_m.blocks@[b as int].params@.update(
                    j as int,
                    fresh,
                ));
                assert(map@ == pre_map.push((orig, fresh)));
                assert(rename_params(pre_m.blocks@[b as int].params@, pre_map, (counter - 1) as nat, j as int)
                    == rename_params(module.blocks@[b as int].params@, map@, counter as nat, j + 1));
                assert(forall|bi: int|
                    0 <= bi < n && bi != b ==> #[trigger] module.blocks@[bi]
                        == pre_m.blocks@[bi]);
                assert forall|bi: int|
                    0 <= bi < n && bi != b implies mview(*module)[bi] == #[trigger] mv_top[bi] by {
                    assert(mview(pre_m)[bi] == mv_top[bi]);
                }
                assert(module.blocks@[b as int].params@[j as int] == fresh);
                assert(forall|bi: int|
                    0 <= bi < n && processed[bi] ==> #[trigger] module.blocks@[bi]
                        == pre_m.blocks@[bi]);
                lemma_defs_transfer(pre_m, *module, processed, c_top as int);
            }
        }
        let ghost m1v = map@;
        let ghost c1v = counter as nat;
        proof {
            assert(rename_params(mv_top[b as int].0, m0b, c_top, 0) == (
                module.blocks@[b as int].params@,
                m1v,
                c1v,
            ));
        }
        // (b) instructions, exactly as in the local variant: uses first,
        // then the destination's fresh identity.
        let ghost params_done = module.blocks@[b as int].params@;
        let ilen = module.blocks[b].instructions.len();
        let mut j: usize = 0;
        while j < ilen && fail.is_none()
            invariant
                n == module.blocks@.len(),
                n == m0.blocks@.len(),
                (b as int) < n,
                j <= ilen,
                ilen == module.blocks@[b as int].instructions@.len(),
                ilen_g == ilen,
                plen + ilen_g == block_size(m0, b as int),
                plen == module.blocks@[b as int].params@.len(),
                c_top + block_size(m0, b as int) <= usize::MAX,
                c1v == c_top + plen,
                counter as int <= c1v + j,
                counter as int >= c1v,
                fail is None ==> counter as int == c1v + j,
                c_top >= 1,
                processed.len() == n,
                !processed[b as int],
                defs_below(*module, processed, c_top as int),
                defs_distinct(*module, processed),
                forall|j2: int|
                    0 <= j2 < plen ==> module.blocks@[b as int].params@[j2] == Value((c_top
                        + j2) as usize),
                fail is None ==> (forall|j2: int|
                    0 <= j2 < j ==> dest_of(
                        #[trigger] module.blocks@[b as int].instructions@[j2],
                    ) == Value((c1v + j2) as usize)),
                rename_shape(m0, *module),
                module.blocks@[b as int].params@ == params_done,
                module.blocks@[b as int].terminator == mv_top[b as int].2,
                forall|bi: int|
                    0 <= bi < n && bi != b ==> mview(*module)[bi] == #[trigger] mv_top[bi],
                fail is None ==> rename_instrs(mv_top[b as int].1, m1v, c1v, 0) == rename_instrs(
                    module.blocks@[b as int].instructions@,
                    map@,
                    counter as nat,
                    j as int,
                ),
                fail matches Some(v) ==> rename_instrs(mv_top[b as int].1, m1v, c1v, 0)
                    == Err::<(Seq<Instruction>, Seq<(Value, Value)>, nat), Value>(v),
            decreases (if fail is None {
                1int
            } else {
                0int
            }), ilen - j,
        {
            let inst = module.blocks[b].instructions[j];
            proof {
                assert(module.blocks@[b as int].instructions@[j as int] == inst);
            }
            let ghost pre_m = *module;
            let ghost pre_map = map@;
            let ghost pre_counter = counter as nat;
            match inst {
                Instruction::Int(dest, literal) => {
                    assert(counter < usize::MAX);
                    let fresh = Value(counter);
                    counter = counter + 1;
                    map.push((dest, fresh));
                    let blk = &mut module.blocks[b];
                    blk.instructions[j] = Instruction::Int(fresh, literal);
                    proof {
                        assert(rename_instrs(pre_m.blocks@[b as int].instructions@, pre_map, pre_counter, j as int)
                            == rename_instrs(
                            module.blocks@[b as int].instructions@,
                            map@,
                            counter as nat,
                            j + 1,
                        ));
                        assert(dest_of(module.blocks@[b as int].instructions@[j as int])
                            == fresh);
                        assert(forall|bi: int|
                            0 <= bi < n && processed[bi] ==> #[trigger] module.blocks@[bi]
                                == pre_m.blocks@[bi]);
                        assert(module.blocks@[b as int].params@
                            == pre_m.blocks@[b as int].params@);
                        lemma_defs_transfer(pre_m, *module, processed, c_top as int);
                    }
                    j = j + 1;
                },
                Instruction::Move(dest, src) => {
                    match resolve(&map, src) {
                        None => {
                            proof {
                                assert(rename_instrs(
                                    pre_m.blocks@[b as int].instructions@,
                                    pre_map,
                                    pre_counter,
                                    j as int,
                                ) == Err::<(Seq<Instruction>, Seq<(Value, Value)>, nat), Value>(
                                    src,
                                ));
                            }
                            fail = Some(src);
                        },
                        Some(sv) => {
                            assert(counter < usize::MAX);
                            let fresh = Value(counter);
                            counter = counter + 1;
                            map.push((dest, fresh));
                            let blk = &mut module.blocks[b];
                            blk.instructions[j] = Instruction::Move(fresh, sv);
                            proof {
                                assert(rename_instrs(
                                    pre_m.blocks@[b as int].instructions@,
                                    pre_map,
                                    pre_counter,
                                    j as int,
                                ) == rename_instrs(
                                    module.blocks@[b as int].instructions@,
                                    map@,
                                    counter as nat,
                                    j + 1,
                                ));
                                assert(dest_of(
                                    module.blocks@[b as int].instructions@[j as int],
                                ) == fresh);
                                assert(forall|bi: int|
                                    0 <= bi < n && processed[bi]
                                        ==> #[trigger] module.blocks@[bi] == pre_m.blocks@[bi]);
                                assert(module.blocks@[b as int].params@
                                    == pre_m.blocks@[b as int].params@);
                                lemma_defs_transfer(pre_m, *module, processed, c_top as int);
                            }
                            j = j + 1;
                        },
                    }
                },
                Instruction::BinOp(op, dest, lhs, rhs) => {
                    let lv_opt = resolve(&map, lhs);
                    match lv_opt {
                        None => {
                            proof {
                                assert(rename_instrs(
                                    pre_m.blocks@[b as int].instructions@,
                                    pre_map,
                                    pre_counter,
                                    j as int,
                                ) == Err::<(Seq<Instruction>, Seq<(Value, Value)>, nat), Value>(
                                    lhs,
                                ));
                            }
                            fail = Some(lhs);
                        },
                        Some(lv) => {
                            match resolve(&map, rhs) {
                                None => {
                                    proof {
                                        assert(rename_instrs(
                                            pre_m.blocks@[b as int].instructions@,
                                            pre_map,
                                            pre_counter,
                                            j as int,
                                        ) == Err::<
                                            (Seq<Instruction>, Seq<(Value, Value)>, nat),
                                            Value,
                                        >(rhs));
                                    }
                                    fail = Some(rhs);
                                },
                                Some(rv) => {
                                    assert(counter < usize::MAX);
                                    let fresh = Value(counter);
                                    counter = counter + 1;
                                    map.push((dest, fresh));
                                    let blk = &mut module.blocks[b];
                                    blk.instructions[j] = Instruction::BinOp(op, fresh, lv, rv);
                                    proof {
                                        assert(rename_instrs(
                                            pre_m.blocks@[b as int].instructions@,
                                            pre_map,
                                            pre_counter,
                                            j as int,
                                        ) == rename_instrs(
                                            module.blocks@[b as int].instructions@,
                                            map@,
                                            counter as nat,
                                            j + 1,
                                        ));
                                        assert(dest_of(
                                            module.blocks@[b as int].instructions@[j as int],
                                        ) == fresh);
                                        assert(forall|bi: int|
                                            0 <= bi < n && processed[bi]
                                                ==> #[trigger] module.blocks@[bi]
                                                == pre_m.blocks@[bi]);
                                        assert(module.blocks@[b as int].params@
                                            == pre_m.blocks@[b as int].params@);
                                        lemma_defs_transfer(
                                            pre_m,
                                            *module,
                                            processed,
                                            c_top as int,
                                        );
                                    }
                                    j = j + 1;
                                },
                            }
                        },
                    }
                },
            }
        }
        // (c) the terminator's use, then the children, unless the walk hit
        // an unbound use.
        if fail.is_none() {
            proof {
                assert(rename_instrs(mv_top[b as int].1, m1v, c1v, 0) == Ok::<
                    _,
                    Value,
                >((module.blocks@[b as int].instructions@, map@, counter as nat)));
            }
            let ghost instrs_done = module.blocks@[b as int].instructions@;
            let ghost m2v = map@;
            let ghost c2v = counter as nat;
            let term = module.blocks[b].terminator;
            let new_term_or = match term {
                Terminator::Return(v) => {
                    match resolve(&map, v) {
                        None => Err(v),
                        Some(rv) => Ok(Terminator::Return(rv)),
                    }
                },
                Terminator::Branch(c, x, y) => {
                    match resolve(&map, c) {
                        None => Err(c),
                        Some(cv) => Ok(Terminator::Branch(cv, x, y)),
                    }
                },
                other => Ok(other),
            };
            match new_term_or {
                Err(v) => {
                    proof {
                        assert(rename_term(mv_top[b as int].2, m2v) == Err::<Terminator, Value>(
                            v,
                        ));
                        assert(rename_walk(mv_top, doms, sv_top, pushed_top, c_top) == Err::<
                            Seq<(Seq<Value>, Seq<Instruction>, Terminator)>,
                            Value,
                        >(v));
                    }
                    fail = Some(v);
                    stack.clear();
                    proof {
                        processed = processed.update(b as int, true);
                        lemma_sizes_le(m0, processed, n as int);
                    }
                },
                Ok(new_term) => {
                    let ghost pre_m = *module;
                    let blk = &mut module.blocks[b];
                    blk.terminator = new_term;
                    proof {
                        assert(rename_term(mv_top[b as int].2, m2v) == Ok::<Terminator, Value>(
                            new_term,
                        ));
                        assert(forall|bi: int|
                            0 <= bi < n && bi != b ==> #[trigger] module.blocks@[bi]
                                == pre_m.blocks@[bi]);
                        assert(module.blocks@[b as int].params@
                            == pre_m.blocks@[b as int].params@);
                        assert(module.blocks@[b as int].instructions@
                            == pre_m.blocks@[b as int].instructions@);
                        assert(forall|bi: int|
                            0 <= bi < n && processed[bi] ==> #[trigger] module.blocks@[bi]
                                == pre_m.blocks@[bi]);
                        lemma_defs_transfer(pre_m, *module, processed, c_top as int);
                        assert(term_shape(mv_top[b as int].2, new_term));
                        assert(term_shape(m0.blocks@[b as int].terminator, new_term));
                    }
                    // Children in the dominator tree inherit a copy of the
                    // bindings; each block joins the walk at most once (it
                    // has one tree parent).
                    let ghost mid_marks = crate::graph::marks_before(pushed@, n as int);
                    for c in 0..n
                        invariant
                            n == module.blocks@.len(),
                            doms.len() == n,
                            idoms@ == doms,
                            pushed@.len() == n,
                            processed.len() == n,
                            (b as int) < n,
                            map@ == m2v,
                            !processed[b as int],
                            pushed@[b as int],
                            pushed@[0int],
                            counter >= 1,
                            defs_below(*module, processed, c_top as int),
                            defs_distinct(*module, processed),
                            forall|bb: int|
                                #![trigger pushed@[bb]]
                                0 <= bb < n ==> (pushed@[bb] <==> (processed[bb] || bb == b
                                    || exists|t: int|
                                    0 <= t < stack@.len() && (#[trigger] stack@[t]).0 == bb)),
                            forall|i: int| 0 <= i < n && processed[i] ==> pushed@[i],
                            forall|i: int|
                                0 <= i < n ==> pushed@[i] == (pushed_top[i] || (i < c
                                    && is_new_child(doms, pushed_top, b, i))),
                            stack_view(stack@) =~= sv_top.drop_last() + children_upto(
                                doms,
                                pushed_top,
                                b,
                                c as int,
                            ).map_values(|cc: usize| (cc, m2v)),
                            forall|t: int|
                                0 <= t < stack@.len() ==> (#[trigger] stack@[t].0 as int) < n,
                            forall|t: int|
                                0 <= t < stack@.len() ==> pushed@[#[trigger] stack@[t].0 as int],
                            forall|t: int|
                                0 <= t < stack@.len() ==> !processed[#[trigger] stack@[t].0 as int]
                                    && stack@[t].0 != b,
                            forall|t1: int, t2: int|
                                0 <= t1 < t2 < stack@.len() ==> (#[trigger] stack@[t1]).0 != (
                                #[trigger] stack@[t2]).0,
                            crate::graph::marks_before(pushed@, n as int) <= n,
                            crate::graph::marks_before(pushed@, n as int) >= mid_marks,
                    {
                        if c != b {
                            let is_child = match idoms[c] {
                                Some(d) => d == b,
                                None => false,
                            };
                            if is_child && !pushed[c] {
                                let ghost pre_p = pushed@;
                                let ghost pre_stack2 = stack@;
                                pushed[c] = true;
                                stack.push((c, clone_bindings(&map)));
                                proof {
                                    crate::graph::lemma_marks_update(pre_p, c as int, n as int);
                                    crate::graph::lemma_marks_le(pushed@, n as int);
                                    assert(stack@[stack@.len() - 1].0 == c);
                                    assert forall|bb: int|
                                        #![trigger pushed@[bb]]
                                        0 <= bb < n implies (pushed@[bb] <==> (processed[bb] || bb
                                        == b || exists|t: int|
                                        0 <= t < stack@.len() && (#[trigger] stack@[t]).0 == bb))
                                        by {
                                        if bb == c as int {
                                            assert(stack@[stack@.len() - 1].0 == c);
                                        } else {
                                            if pre_p[bb] && !processed[bb] && bb != b {
                                                let t = choose|t: int|
                                                    0 <= t < pre_stack2.len() && (
                                                    #[trigger] pre_stack2[t]).0 == bb;
                                                assert(stack@[t].0 == bb);
                                            }
                                            if exists|t: int|
                                                0 <= t < stack@.len() && (#[trigger] stack@[t]).0
                                                    == bb {
                                                let t = choose|t: int|
                                                    0 <= t < stack@.len() && (
                                                    #[trigger] stack@[t]).0 == bb;
                                                assert(t < pre_stack2.len());
                                                assert(pre_stack2[t].0 == bb);
                                            }
                                        }
                                    }
                                    assert(is_new_child(doms, pushed_top, b, c as int)) by {
                                        assert(pre_p[c as int] == pushed_top[c as int]);
                                    }
                                    assert(children_upto(doms, pushed_top, b, c + 1)
                                        =~= children_upto(doms, pushed_top, b, c as int).push(
                                        c,
                                    ));
                                    assert(stack_view(stack@) =~= stack_view(pre_stack2).push(
                                        (c, m2v),
                                    ));
                                    assert(children_upto(doms, pushed_top, b, c + 1).map_values(
                                        |cc: usize| (cc, m2v),
                                    ) =~= children_upto(doms, pushed_top, b, c as int).map_values(
                                        |cc: usize| (cc, m2v),
                                    ).push((c, m2v)));
                                    assert(stack_view(stack@) =~= sv_top.drop_last()
                                        + children_upto(doms, pushed_top, b, c + 1).map_values(
                                        |cc: usize| (cc, m2v),
                                    ));
                                }
                            } else {
                                proof {
                                    assert(!is_new_child(doms, pushed_top, b, c as int)) by {
                                        if is_new_child(doms, pushed_top, b, c as int) {
                                            assert(pushed@[c as int]);
                                        }
                                    }
                                    assert(children_upto(doms, pushed_top, b, c + 1)
                                        =~= children_upto(doms, pushed_top, b, c as int));
                                }
                            }
                        } else {
                            proof {
                                assert(children_upto(doms, pushed_top, b, c + 1)
                                    =~= children_upto(doms, pushed_top, b, c as int));
                            }
                        }
                    }
                    proof {
                        let ghost prev_processed = processed;
                        processed = processed.update(b as int, true);
                        lemma_sizes_le(m0, processed, n as int);
                        assert forall|pos: int|
                            0 <= pos < def_count(*module, b as int) implies #[trigger] def_at(
                            *module,
                            b as int,
                            pos,
                        ) == Value((c_top + pos) as usize) by {
                            if pos < plen {
                                assert(module.blocks@[b as int].params@[pos] == Value((c_top
                                    + pos) as usize));
                            } else {
                                assert(dest_of(module.blocks@[b as int].instructions@[pos - plen])
                                    == Value((c1v + (pos - plen)) as usize));
                            }
                        }
                        assert(def_count(*module, b as int) == plen + ilen_g);
                        assert(counter as int == c_top + plen + ilen_g);
                        assert(defs_below(*module, processed, counter as int)) by {
                            assert forall|bb: usize, pos: int|
                                (bb as int) < n && processed[bb as int] && 0 <= pos < def_count(
                                    *module,
                                    bb as int,
                                ) implies 1 <= (#[trigger] def_at(*module, bb as int, pos)).0
                                < counter as int by {
                                if bb as int == b as int {
                                    assert(def_at(*module, bb as int, pos) == Value((c_top
                                        + pos) as usize));
                                } else {
                                    assert(prev_processed[bb as int]);
                                    assert(1 <= (def_at(*module, bb as int, pos)).0 < c_top);
                                }
                            }
                        }
                        assert(defs_distinct(*module, processed)) by {
                            assert forall|b1: usize, b2: usize, p1: int, p2: int|
                                #![trigger def_at(*module, b1 as int, p1), def_at(*module, b2 as int, p2)]
                                (b1 as int) < n && (b2 as int) < n && processed[b1 as int]
                                    && processed[b2 as int] && 0 <= p1 < def_count(
                                    *module,
                                    b1 as int,
                                ) && 0 <= p2 < def_count(*module, b2 as int) && !(b1 == b2 && p1
                                    == p2) implies def_at(*module, b1 as int, p1) != def_at(
                                *module,
                                b2 as int,
                                p2,
                            ) by {
                                if b1 == b && b2 == b {
                                    assert(def_at(*module, b1 as int, p1) == Value((c_top
                                        + p1) as usize));
                                    assert(def_at(*module, b2 as int, p2) == Value((c_top
                                        + p2) as usize));
                                    assert(c_top + p1 <= usize::MAX && c_top + p2 <= usize::MAX);
                                } else if b1 == b {
                                    assert(prev_processed[b2 as int]);
                                    assert((def_at(*module, b2 as int, p2)).0 < c_top);
                                    assert(def_at(*module, b1 as int, p1) == Value((c_top
                                        + p1) as usize));
                                    assert(c_top + p1 <= usize::MAX);
                                } else if b2 == b {
                                    assert(prev_processed[b1 as int]);
                                    assert((def_at(*module, b1 as int, p1)).0 < c_top);
                                    assert(def_at(*module, b2 as int, p2) == Value((c_top
                                        + p2) as usize));
                                    assert(c_top + p2 <= usize::MAX);
                                } else {
                                    assert(prev_processed[b1 as int] && prev_processed[b2 as int]);
                                }
                            }
                        }
                        assert(kids_pushed(doms, processed, pushed@)) by {
                            assert forall|pp: usize, c2: usize|
                                #![trigger processed[pp as int], doms[c2 as int]]
                                (pp as int) < n && (c2 as int) < n && processed[pp as int] && c2
                                    != pp && doms[c2 as int] == Some(pp) implies pushed@[c2 as int]
                                by {
                                if pp == b {
                                    assert(pushed@[c2 as int] == (pushed_top[c2 as int]
                                        || is_new_child(doms, pushed_top, b, c2 as int)));
                                } else {
                                    assert(prev_processed[pp as int]);
                                }
                            }
                        }
                        assert forall|bb: int| #![trigger pushed@[bb]] 0 <= bb < n implies (
                        pushed@[bb] <==> (processed[bb] || exists|t: int|
                            0 <= t < stack@.len() && (#[trigger] stack@[t]).0 == bb)) by {
                            if bb == b as int {
                                assert(processed[bb]);
                                assert(pushed@[bb]);
                            }
                        }
                        assert(mview(*module) =~= mv_top.update(
                            b as int,
                            (params_done, instrs_done, new_term),
                        ));
                        assert(pushed@ =~= Seq::new(
                            pushed_top.len(),
                            |i: int| pushed_top[i] || is_new_child(doms, pushed_top, b, i),
                        ));
                        assert(rename_walk(mv_top, doms, sv_top, pushed_top, c_top)
                            == rename_walk(
                            mview(*module),
                            doms,
                            stack_view(stack@),
                            pushed@,
                            counter as nat,
                        ));
                        lemma_marks_pointwise(pushed_top, pushed@, n as int);
                        if children_upto(doms, pushed_top, b, n as int).len() > 0 {
                            lemma_children_upto_sound(doms, pushed_top, b, n as int, 0);
                            let w = children_upto(doms, pushed_top, b, n as int)[0] as int;
                            assert(!pushed_top[w] && pushed@[w]);
                            assert(crate::graph::marks_before(pushed_top, n as int)
                                < crate::graph::marks_before(pushed@, n as int));
                        } else {
                            assert(pushed@ =~= pushed_top) by {
                                assert forall|i: int|
                                    0 <= i < n implies pushed@[i] == pushed_top[i] by {
                                    if is_new_child(doms, pushed_top, b, i) {
                                        assert(children_upto(doms, pushed_top, b, i + 1).len()
                                            > 0);
                                        lemma_children_prefix(
                                            doms,
                                            pushed_top,
                                            b,
                                            i + 1,
                                            n as int,
                                        );
                                    }
                                }
                            }
                            assert(stack_view(stack@) =~= sv_top.drop_last());
                            assert(stack@.len() < sv_top.len());
                        }
                    }
                },
            }
        } else {
            stack.clear();
            proof {
                let v = fail->Some_0;
                assert(rename_instrs(mv_top[b as int].1, m1v, c1v, 0) == Err::<
                    (Seq<Instruction>, Seq<(Value, Value)>, nat),
                    Value,
                >(v));
                assert(rename_walk(mv_top, doms, sv_top, pushed_top, c_top) == Err::<
                    Seq<(Seq<Value>, Seq<Instruction>, Terminator)>,
                    Value,
                >(v));
                processed = processed.update(b as int, true);
                lemma_sizes_le(m0, processed, n as int);
            }
        }
    }
    match fail {
        None => {
            proof {
                assert(stack_view(stack@) =~= Seq::<(usize, Seq<(Value, Value)>)>::empty());
                assert(rename_walk(mview(*module), doms, stack_view(stack@), pushed@, counter as nat)
                    == Ok::<_, Value>(mview(*module)));
                assert(renaming(m0, *module, Ok::<(), crate::error::IrError>(()))) by {
                    assert(dom_ok(crate::ssa::module_adj(m0), 0, doms));
                }
                // With the walk finished, the marked blocks are exactly the
                // processed ones and they are closed under dominator-tree
                // children, so every reachable block was renamed and its
                // definition sites are pairwise distinct.
                let adj = crate::ssa::module_adj(m0);
                let rpo = choose|rpo: Seq<usize>|
                    crate::dominance::dom_ok_with(adj, 0, rpo, doms);
                assert forall|bb: int| 0 <= bb < n implies (#[trigger] pushed@[bb]
                    <==> processed[bb]) by {
                    if pushed@[bb] && !processed[bb] {
                        let t = choose|t: int|
                            0 <= t < stack@.len() && (#[trigger] stack@[t]).0 == bb;
                    }
                }
                assert(processed[0int]) by {
                    assert(pushed@[0int]);
                }
                assert forall|bb: usize|
                    (bb as int) < n && doms[bb as int] is Some implies #[trigger] processed[bb as int] by {
                    assert forall|pp: usize, c2: usize|
                        #![trigger processed[pp as int], doms[c2 as int]]
                        (pp as int) < n && (c2 as int) < n && processed[pp as int] && c2 != pp
                            && doms[c2 as int] == Some(pp) implies processed[c2 as int] by {
                        assert(pushed@[c2 as int]);
                    }
                    lemma_processed_covers(adj, 0, rpo, doms, processed, bb);
                }
                assert(unique_defs(m0, *module)) by {
                    assert forall|b1: usize, b2: usize, p1: int, p2: int|
                        #![trigger def_at(*module, b1 as int, p1), def_at(*module, b2 as int, p2)]
                        crate::graph::reachable(adj, 0, b1) && crate::graph::reachable(adj, 0, b2)
                            && (b1 as int) < module.blocks@.len() && (b2 as int)
                            < module.blocks@.len() && 0 <= p1 < def_count(*module, b1 as int) && 0
                            <= p2 < def_count(*module, b2 as int) && !(b1 == b2 && p1 == p2)
                            implies def_at(*module, b1 as int, p1) != def_at(
                        *module,
                        b2 as int,
                        p2,
                    ) by {
                        assert(doms[b1 as int] is Some && doms[b2 as int] is Some);
                        assert(processed[b1 as int] && processed[b2 as int]);
                    }
                }
            }
            Ok(())
        },
        Some(v) => {
            proof {
                assert(renaming(
                    m0,
                    *module,
                    Err::<(), crate::error::IrError>(crate::error::IrError::UndefinedValue(v)),
                )) by {
                    assert(dom_ok(crate::ssa::module_adj(m0), 0, doms));
                    assert(target == Err::<Seq<(Seq<Value>, Seq<Instruction>, Terminator)>, Value>(
                        v,
                    ));
                }
            }
            Err(crate::error::IrError::UndefinedValue(v))
        },
    }
}

/// An all-false mark set has no marked sizes.
proof fn lemma_sizes_zero(m: Module, marks: Seq<bool>, k: int)
    requires
        forall|i: int| 0 <= i < marks.len() ==> !marks[i],
        k <= marks.len(),
    ensures
        sizes_marked(m, marks, k) == 0,
    decreases k,
{
    if k > 0 {
        lemma_sizes_zero(m, marks, k - 1);
    }
}

} // verus!
