//! The phi-placement pass: inserts block parameters at dominance-frontier
//! join points for every value defined by an instruction, following the
//! worklist algorithm of SSA construction.

use crate::dominance::{dom_ok, front_mem, frontier_ok};
use crate::graph::Graph;
use crate::instruction::{Instruction, Value};
use crate::module::Module;
use vstd::prelude::*;

verus! {

/// The adjacency view a module's terminators induce: node `i`'s successors
/// are block `i`'s terminator targets in stored order.
pub open spec fn module_adj(m: Module) -> Seq<Seq<usize>> {
    Seq::new(m.blocks@.len(), |i: int| m.blocks@[i].terminator.successors())
}

/// Block `x` of `m` holds an instruction whose destination `v` takes part in
/// phi placement.
pub open spec fn defines_in_block(m: Module, v: Value, x: usize) -> bool {
    &&& (x as int) < m.blocks@.len()
    &&& exists|i: int|
        0 <= i < m.blocks@[x as int].instructions@.len()
            && (#[trigger] m.blocks@[x as int].instructions@[i]).phi_def() == Some(v)
}

/// The two modules are equal block for block.
pub open spec fn module_eq(a: Module, b: Module) -> bool {
    &&& a.blocks@.len() == b.blocks@.len()
    &&& forall|bi: int|
        0 <= bi < a.blocks@.len() ==> (#[trigger] b.blocks@[bi]).params@ == a.blocks@[bi].params@
            && b.blocks@[bi].instructions@ == a.blocks@[bi].instructions@
            && b.blocks@[bi].terminator == a.blocks@[bi].terminator
}

/// Every defining block's frontier already carries a parameter for the
/// defined value: the fixed point of phi placement.
pub open spec fn df_covered(m: Module, df: Seq<Vec<usize>>) -> bool {
    forall|v: Value, x: usize, y: usize|
        defines_in_block(m, v, x) && (x as int) < df.len() && #[trigger] df[x as int]@.contains(y)
            && (y as int) < m.blocks@.len() ==> #[trigger] m.blocks@[y as int].params@.contains(v)
}

/// Block `x` carries a parameter for `v` in `m1` that it did not carry in
/// `m0`: a parameter this run added.
pub open spec fn added_param(m0: Module, m1: Module, v: Value, x: usize) -> bool {
    &&& (x as int) < m0.blocks@.len()
    &&& (x as int) < m1.blocks@.len()
    &&& m1.blocks@[x as int].params@.contains(v)
    &&& !m0.blocks@[x as int].params@.contains(v)
}

/// How parameter lists may grow: counts, instructions and terminators are
/// kept; the old parameters stay as a prefix; and the appended parameters
/// are pairwise distinct and distinct from the old ones, so a block never
/// ends up with two parameters for one value it did not already duplicate.
pub open spec fn params_grown(m0: Module, m1: Module) -> bool {
    &&& m1.blocks@.len() == m0.blocks@.len()
    &&& forall|bi: int|
        0 <= bi < m0.blocks@.len() ==> (#[trigger] m1.blocks@[bi]).instructions@
            == m0.blocks@[bi].instructions@ && m1.blocks@[bi].terminator
            == m0.blocks@[bi].terminator
    &&& forall|bi: int|
        0 <= bi < m0.blocks@.len() ==> (#[trigger] m0.blocks@[bi].params@).is_prefix_of(
            m1.blocks@[bi].params@,
        )
    &&& forall|bi: int|
        0 <= bi < m0.blocks@.len() ==> (#[trigger] m1.blocks@[bi].params@.skip(
            m0.blocks@[bi].params@.len() as int,
        )).no_duplicates()
    &&& forall|bi: int, k2: int|
        0 <= bi < m0.blocks@.len() && m0.blocks@[bi].params@.len() <= k2
            < m1.blocks@[bi].params@.len() ==> !m0.blocks@[bi].params@.contains(
            #[trigger] m1.blocks@[bi].params@[k2],
        )
}

/// The saturation the worklist reaches: the frontier of every block that
/// defines `v` — by an instruction or by a parameter this run added —
/// already carries a parameter for `v`. Iterating this gives the whole
/// iterated dominance frontier.
pub open spec fn df_saturated(m0: Module, m1: Module, df: Seq<Vec<usize>>) -> bool {
    forall|v: Value, x: usize, y: usize|
        #![trigger defines_in_block(m0, v, x), df[x as int]@.contains(y)]
        #![trigger added_param(m0, m1, v, x), df[x as int]@.contains(y)]
        (defines_in_block(m0, v, x) || added_param(m0, m1, v, x)) && (x as int) < df.len()
            && df[x as int]@.contains(y) && (y as int) < m1.blocks@.len()
            ==> m1.blocks@[y as int].params@.contains(v)
}

/// A chain from a defining block of `v` into the iterated dominance
/// frontier: each later entry lies in the frontier of the one before it.
pub open spec fn idf_trace(m0: Module, df: Seq<Vec<usize>>, v: Value, tr: Seq<usize>) -> bool {
    &&& tr.len() >= 2
    &&& defines_in_block(m0, v, tr[0])
    &&& forall|i: int|
        #![trigger tr[i]]
        0 <= i < tr.len() - 1 ==> (tr[i] as int) < df.len() && df[tr[i] as int]@.contains(
            tr[i + 1],
        )
}

/// Membership in the iterated dominance frontier of `v`'s defining blocks:
/// some frontier chain from a defining block ends at `y`.
pub open spec fn in_idf(m0: Module, df: Seq<Vec<usize>>, v: Value, y: usize) -> bool {
    exists|tr: Seq<usize>| #[trigger] idf_trace(m0, df, v, tr) && tr.last() == y
}

/// A frontier chain extends by one frontier step.
proof fn lemma_trace_extend(
    m0: Module,
    df: Seq<Vec<usize>>,
    v: Value,
    trx: Seq<usize>,
    x: usize,
    y: usize,
)
    requires
        idf_trace(m0, df, v, trx),
        trx.last() == x,
        (x as int) < df.len(),
        df[x as int]@.contains(y),
    ensures
        idf_trace(m0, df, v, trx.push(y)),
        trx.push(y).last() == y,
{
    let tr = trx.push(y);
    assert(tr[0] == trx[0]);
    assert forall|i: int|
        #![trigger tr[i]]
        0 <= i < tr.len() - 1 implies (tr[i] as int) < df.len() && df[tr[i] as int]@.contains(
        tr[i + 1],
    ) by {
        if i < trx.len() - 1 {
            assert(tr[i] == trx[i] && tr[i + 1] == trx[i + 1]);
            assert((trx[i] as int) < df.len() && df[trx[i] as int]@.contains(trx[i + 1]));
        } else {
            assert(i == trx.len() - 1);
            assert(tr[i] == trx.last() && tr[i + 1] == y);
        }
    }
}

/// No spurious parameters: every added parameter lies in the iterated
/// dominance frontier of the value's defining blocks.
pub open spec fn added_grounded(m0: Module, m1: Module, df: Seq<Vec<usize>>) -> bool {
    forall|v: Value, y: usize| #[trigger] added_param(m0, m1, v, y) ==> in_idf(m0, df, v, y)
}

/// What one run of phi placement does, relative to the frontier table `df`
/// it used: parameter lists grow only by fresh, duplicate-free entries;
/// afterwards every defining or parameter-carrying block's frontier carries
/// the value (saturation); nothing is added outside the frontiers of such
/// blocks; and a module that already had the saturation property comes back
/// unchanged.
pub open spec fn phi_rel(m0: Module, m1: Module, df: Seq<Vec<usize>>) -> bool {
    &&& params_grown(m0, m1)
    &&& df_covered(m1, df)
    &&& df_saturated(m0, m1, df)
    &&& added_grounded(m0, m1, df)
    &&& (df_covered(m0, df) ==> module_eq(m0, m1))
}

/// What the phi-placement pass establishes: for a module with blocks, some
/// dominator array and frontier table for its graph view (entry block 0)
/// witness the placement relation; an empty module is returned unchanged.
pub open spec fn phi_insertion(m0: Module, m1: Module) -> bool {
    if m0.blocks@.len() == 0 {
        module_eq(m0, m1)
    } else {
        exists|doms: Seq<Option<usize>>, df: Seq<Vec<usize>>|
            #[trigger] dom_ok(module_adj(m0), 0, doms) && #[trigger] frontier_ok(
                module_adj(m0),
                doms,
                df,
            ) && phi_rel(m0, m1, df)
    }
}

/// Phi placement is idempotent: a second run over the same frontier table
/// changes nothing, because the first run saturated every defining block's
/// frontier.
pub proof fn lemma_phi_placement_idempotent(m0: Module, m1: Module, m2: Module, df: Seq<Vec<usize>>)
    requires
        phi_rel(m0, m1, df),
        phi_rel(m1, m2, df),
    ensures
        module_eq(m1, m2),
{
    assert(df_covered(m1, df));
    assert(module_eq(m1, m2));
}

/// A frontier chain ends at blocks that carry the parameter: induction over
/// the chain through the saturation property, for a module that started
/// without parameters.
proof fn lemma_trace_covered(
    m0: Module,
    m1: Module,
    df: Seq<Vec<usize>>,
    v: Value,
    tr: Seq<usize>,
    i: int,
)
    requires
        phi_rel(m0, m1, df),
        df.len() == m0.blocks@.len(),
        forall|bi: int|
            0 <= bi < m0.blocks@.len() ==> (#[trigger] m0.blocks@[bi].params@).len() == 0,
        forall|x2: int, u2: int|
            0 <= x2 < df.len() && 0 <= u2 < df[x2]@.len() ==> (#[trigger] df[x2]@[u2] as int)
                < m0.blocks@.len(),
        idf_trace(m0, df, v, tr),
        1 <= i < tr.len(),
    ensures
        (tr[i] as int) < m1.blocks@.len(),
        m1.blocks@[tr[i] as int].params@.contains(v),
    decreases i,
{
    assert((tr[i - 1] as int) < df.len() && df[tr[i - 1] as int]@.contains(tr[i])) by {
        assert(tr[i - 1] == tr[(i - 1) as int]);
    }
    assert((tr[i] as int) < m0.blocks@.len()) by {
        let u2 = choose|u2: int|
            0 <= u2 < df[tr[i - 1] as int]@.len() && #[trigger] df[tr[i - 1] as int]@[u2]
                == tr[i];
        assert((df[tr[i - 1] as int]@[u2] as int) < m0.blocks@.len());
    }
    if i == 1 {
        assert(defines_in_block(m0, v, tr[0]));
    } else {
        lemma_trace_covered(m0, m1, df, v, tr, i - 1);
        assert(added_param(m0, m1, v, tr[i - 1])) by {
            assert(m0.blocks@[tr[i - 1] as int].params@.len() == 0);
        }
    }
}

/// Phi placement computes exactly the iterated dominance frontier: starting
/// from a module without block parameters, a block carries a parameter for
/// `v` afterwards exactly when it lies in the iterated dominance frontier
/// of `v`'s defining blocks.
pub proof fn lemma_phi_iterated_frontier(
    m0: Module,
    m1: Module,
    df: Seq<Vec<usize>>,
    v: Value,
    y: usize,
)
    requires
        phi_rel(m0, m1, df),
        df.len() == m0.blocks@.len(),
        forall|bi: int|
            0 <= bi < m0.blocks@.len() ==> (#[trigger] m0.blocks@[bi].params@).len() == 0,
        forall|x2: int, u2: int|
            0 <= x2 < df.len() && 0 <= u2 < df[x2]@.len() ==> (#[trigger] df[x2]@[u2] as int)
                < m0.blocks@.len(),
        (y as int) < m0.blocks@.len(),
    ensures
        m1.blocks@[y as int].params@.contains(v) <==> in_idf(m0, df, v, y),
{
    if m1.blocks@[y as int].params@.contains(v) {
        assert(added_param(m0, m1, v, y)) by {
            assert(m0.blocks@[y as int].params@.len() == 0);
        }
        assert(in_idf(m0, df, v, y));
    }
    if in_idf(m0, df, v, y) {
        let tr = choose|tr: Seq<usize>| #[trigger] idf_trace(m0, df, v, tr) && tr.last() == y;
        lemma_trace_covered(m0, m1, df, v, tr, tr.len() - 1);
    }
}

/// True when `v` holds `x`.
fn contains_index(v: &Vec<usize>, x: usize) -> (r: bool)
    ensures
        r == v@.contains(x),
{
    let m = v.len();
    for i in 0..m
        invariant
            m == v@.len(),
            forall|k: int| 0 <= k < i ==> v@[k] != x,
    {
        if v[i] == x {
            assert(v@[i as int] == x);
            return true;
        }
    }
    false
}

/// True when `v` holds `x`.
fn contains_value(v: &Vec<Value>, x: Value) -> (r: bool)
    ensures
        r == v@.contains(x),
{
    let m = v.len();
    for i in 0..m
        invariant
            m == v@.len(),
            forall|k: int| 0 <= k < i ==> v@[k] != x,
    {
        if v[i] == x {
            assert(v@[i as int] == x);
            return true;
        }
    }
    false
}

/// Copies a list of block indices.
fn clone_indices(v: &Vec<usize>) -> (r: Vec<usize>)
    ensures
        r@ == v@,
{
    let mut r: Vec<usize> = Vec::new();
    let m = v.len();
    for i in 0..m
        invariant
            m == v@.len(),
            r@ == v@.take(i as int),
    {
        r.push(v[i]);
        assert(r@ =~= v@.take(i + 1));
    }
    assert(r@ =~= v@);
    r
}

/// Computes the dominance frontiers of a module's graph view from its entry
/// block.
fn get_dom_fronts(module: &Module) -> (df: Vec<Vec<usize>>)
    requires
        module.targets_in_range(),
        module.blocks@.len() > 0,
    ensures
        df@.len() == module.blocks@.len(),
        exists|doms: Seq<Option<usize>>|
            #[trigger] dom_ok(module_adj(*module), 0, doms) && frontier_ok(
                module_adj(*module),
                doms,
                df@,
            ),
{
    let graph = Graph::from_module(module);
    proof {
        assert forall|i: int| 0 <= i < graph@.len() implies #[trigger] graph@[i] == module_adj(
            *module,
        )[i] by {
            assert(graph@[i] == graph.nodes@[i]@);
            assert(graph.nodes@[i]@ == module.succ_of(i));
            assert(module_adj(*module)[i] == module.blocks@[i].terminator.successors());
        }
        assert(graph@ =~= module_adj(*module));
    }
    let df = graph.dominance_frontier(0);
    proof {
        let doms = choose|doms: Seq<Option<usize>>|
            #[trigger] dom_ok(graph@, 0, doms) && frontier_ok(graph@, doms, df@);
        assert(dom_ok(module_adj(*module), 0, doms) && frontier_ok(
            module_adj(*module),
            doms,
            df@,
        ));
    }
    df
}

/// Places phi nodes (block parameters): every value defined by an
/// instruction is propagated through the iterated dominance frontier of its
/// defining blocks by a worklist, and a block gains at most one parameter
/// per value — membership is checked before insertion, and worklist entries
/// are deduplicated explicitly.
#[verifier::rlimit(100)]
#[verifier::spinoff_prover]
pub fn insert_phi_nodes(module: &mut Module)
    requires
        old(module).targets_in_range(),
    ensures
        phi_insertion(*old(module), *final(module)),
{
    let ghost m0 = *old(module);
    let n = module.blocks.len();
    if n == 0 {
        return ;
    }
    // For each value, the blocks holding an instruction that assigns it,
    // without duplicates, in first-seen order.
    let mut defs: Vec<(Value, Vec<usize>)> = Vec::new();
    for i in 0..n
        invariant
            *module == m0,
            n == module.blocks@.len(),
            forall|k: int, x: usize|
                0 <= k < defs@.len() && #[trigger] defs@[k].1@.contains(x) ==> (x as int) < n
                    && defines_in_block(m0, defs@[k].0, x),
            forall|k1: int, k2: int|
                0 <= k1 < k2 < defs@.len() ==> (#[trigger] defs@[k1]).0 != (#[trigger] defs@[k2]).0,
            forall|v: Value, x: usize|
                (x as int) < i && defines_in_block(m0, v, x) ==> exists|k: int|
                    0 <= k < defs@.len() && (#[trigger] defs@[k]).0 == v && defs@[k].1@.contains(
                        x,
                    ),
    {
        let ilen = module.blocks[i].instructions.len();
        for j in 0..ilen
            invariant
                *module == m0,
                n == module.blocks@.len(),
                (i as int) < n,
                ilen == module.blocks@[i as int].instructions@.len(),
                forall|k: int, x: usize|
                    0 <= k < defs@.len() && #[trigger] defs@[k].1@.contains(x) ==> (x as int) < n
                        && defines_in_block(m0, defs@[k].0, x),
                forall|k1: int, k2: int|
                    0 <= k1 < k2 < defs@.len() ==> (#[trigger] defs@[k1]).0 != (
                    #[trigger] defs@[k2]).0,
                forall|v: Value, x: usize|
                    (x as int) < i && defines_in_block(m0, v, x) ==> exists|k: int|
                        0 <= k < defs@.len() && (#[trigger] defs@[k]).0 == v
                            && defs@[k].1@.contains(x),
                forall|jj: int|
                    0 <= jj < j ==> ((#[trigger] module.blocks@[i as int].instructions@[jj]).phi_def() matches Some(v)
                        ==> exists|k: int|
                        0 <= k < defs@.len() && (#[trigger] defs@[k]).0 == v
                            && defs@[k].1@.contains(i)),
        {
            let inst = module.blocks[i].instructions[j];
            let dest_opt: Option<Value> = match inst {
                Instruction::BinOp(_, dest, _, _) => Some(dest),
                Instruction::Move(dest, _) => Some(dest),
                Instruction::Int(_, _) => None,
            };
            proof {
                assert(dest_opt == inst.phi_def());
            }
            if let Some(dest) = dest_opt {
                proof {
                    assert(module.blocks@[i as int].instructions@[j as int].phi_def() == Some(
                        dest,
                    ));
                    assert(defines_in_block(m0, dest, i));
                }
                let dlen = defs.len();
                let mut found: bool = false;
                for k in 0..dlen
                    invariant
                        dlen == defs@.len(),
                        found ==> exists|k2: int|
                            0 <= k2 < defs@.len() && (#[trigger] defs@[k2]).0 == dest
                                && defs@[k2].1@.contains(i),
                        !found ==> forall|k2: int| 0 <= k2 < k ==> (#[trigger] defs@[k2]).0 != dest,
                        forall|k2: int, x: usize|
                            0 <= k2 < defs@.len() && #[trigger] defs@[k2].1@.contains(x) ==> (
                            x as int) < n && defines_in_block(m0, defs@[k2].0, x),
                        forall|k1: int, k2: int|
                            0 <= k1 < k2 < defs@.len() ==> (#[trigger] defs@[k1]).0 != (
                            #[trigger] defs@[k2]).0,
                        forall|v: Value, x: usize|
                            (x as int) < i && defines_in_block(m0, v, x) ==> exists|k2: int|
                                0 <= k2 < defs@.len() && (#[trigger] defs@[k2]).0 == v
                                    && defs@[k2].1@.contains(x),
                        forall|jj: int|
                            0 <= jj < j ==> ((#[trigger] module.blocks@[i as int].instructions@[jj]).phi_def() matches Some(v)
                                ==> exists|k2: int|
                                0 <= k2 < defs@.len() && (#[trigger] defs@[k2]).0 == v
                                    && defs@[k2].1@.contains(i)),
                        *module == m0,
                        n == module.blocks@.len(),
                        (i as int) < n,
                        defines_in_block(m0, dest, i),
                {
                    if !found && defs[k].0 == dest {
                        let ghost pre_defs = defs@;
                        if !contains_index(&defs[k].1, i) {
                            let entry = &mut defs[k];
                            entry.1.push(i);
                            proof {
                                assert(defs@[k as int].0 == dest);
                                assert(defs@[k as int].0 == pre_defs[k as int].0);
                                assert(forall|k2: int|
                                    0 <= k2 < defs@.len() && k2 != k ==> #[trigger] defs@[k2]
                                        == pre_defs[k2]);
                                assert forall|k1: int, k2: int|
                                    0 <= k1 < k2 < defs@.len() implies (#[trigger] defs@[k1]).0
                                    != (#[trigger] defs@[k2]).0 by {
                                    assert(defs@[k1].0 == pre_defs[k1].0);
                                    assert(defs@[k2].0 == pre_defs[k2].0);
                                }
                                assert(defs@[k as int].1@.contains(i)) by {
                                    assert(defs@[k as int].1@.last() == i);
                                }
                                assert forall|k2: int, x: usize|
                                    0 <= k2 < defs@.len() && #[trigger] defs@[k2].1@.contains(x)
                                        implies (x as int) < n && defines_in_block(
                                    m0,
                                    defs@[k2].0,
                                    x,
                                ) by {
                                    if k2 == k {
                                        if x != i {
                                            assert(pre_defs[k2].1@.contains(x)) by {
                                                let w = choose|w: int|
                                                    0 <= w < defs@[k2].1@.len()
                                                        && defs@[k2].1@[w] == x;
                                                assert(defs@[k2].1@ == pre_defs[k2].1@.push(i));
                                                assert(w < pre_defs[k2].1@.len());
                                            }
                                        }
                                    } else {
                                        assert(defs@[k2] == pre_defs[k2]);
                                    }
                                }
                                assert forall|v: Value, x: usize|
                                    (x as int) < i && defines_in_block(m0, v, x) implies exists|
                                    k2: int,
                                |
                                    0 <= k2 < defs@.len() && (#[trigger] defs@[k2]).0 == v
                                        && defs@[k2].1@.contains(x) by {
                                    let k2 = choose|k2: int|
                                        0 <= k2 < pre_defs.len() && (#[trigger] pre_defs[k2]).0
                                            == v && pre_defs[k2].1@.contains(x);
                                    assert(defs@[k2].0 == v);
                                    assert(defs@[k2].1@.contains(x)) by {
                                        if k2 == k {
                                            let w = choose|w: int|
                                                0 <= w < pre_defs[k2].1@.len()
                                                    && pre_defs[k2].1@[w] == x;
                                            assert(defs@[k2].1@[w] == x);
                                        }
                                    }
                                }
                                assert forall|jj: int|
                                    0 <= jj < j implies ((#[trigger] module.blocks@[i as int].instructions@[jj]).phi_def() matches Some(v)
                                        ==> exists|k2: int|
                                        0 <= k2 < defs@.len() && (#[trigger] defs@[k2]).0 == v
                                            && defs@[k2].1@.contains(i)) by {
                                    if module.blocks@[i as int].instructions@[jj].phi_def() is Some {
                                        let v = module.blocks@[i as int].instructions@[jj].phi_def().unwrap();
                                        let k2 = choose|k2: int|
                                            0 <= k2 < pre_defs.len() && (#[trigger] pre_defs[k2]).0
                                                == v && pre_defs[k2].1@.contains(i);
                                        assert(defs@[k2].0 == v);
                                        assert(defs@[k2].1@.contains(i)) by {
                                            if k2 == k {
                                                let w = choose|w: int|
                                                    0 <= w < pre_defs[k2].1@.len()
                                                        && pre_defs[k2].1@[w] == i;
                                                assert(defs@[k2].1@[w] == i);
                                            }
                                        }
                                    }
                                }
                            }
                        } else {
                            proof {
                                assert(defs@[k as int].0 == dest && defs@[k as int].1@.contains(
                                    i,
                                ));
                            }
                        }
                        found = true;
                    }
                }
                if !found {
                    let ghost pre_defs = defs@;
                    let mut sites: Vec<usize> = Vec::new();
                    sites.push(i);
                    defs.push((dest, sites));
                    proof {
                        assert(defs@[defs@.len() - 1].0 == dest);
                        assert(defs@[defs@.len() - 1].1@.contains(i)) by {
                            assert(defs@[defs@.len() - 1].1@[0] == i);
                        }
                        assert(forall|k2: int|
                            0 <= k2 < pre_defs.len() ==> #[trigger] defs@[k2] == pre_defs[k2]);
                        assert forall|k1: int, k2: int|
                            0 <= k1 < k2 < defs@.len() implies (#[trigger] defs@[k1]).0 != (
                        #[trigger] defs@[k2]).0 by {
                            if k2 == defs@.len() - 1 {
                                assert(defs@[k1].0 != dest);
                            }
                        }
                        assert forall|k2: int, x: usize|
                            0 <= k2 < defs@.len() && #[trigger] defs@[k2].1@.contains(x) implies (
                        x as int) < n && defines_in_block(m0, defs@[k2].0, x) by {
                            if k2 == defs@.len() - 1 {
                                let w = choose|w: int|
                                    0 <= w < defs@[k2].1@.len() && defs@[k2].1@[w] == x;
                                assert(x == i);
                            }
                        }
                        assert forall|jj: int|
                            0 <= jj < j implies ((#[trigger] module.blocks@[i as int].instructions@[jj]).phi_def() matches Some(v)
                                ==> exists|k2: int|
                                0 <= k2 < defs@.len() && (#[trigger] defs@[k2]).0 == v
                                    && defs@[k2].1@.contains(i)) by {
                            if module.blocks@[i as int].instructions@[jj].phi_def() is Some {
                                let v = module.blocks@[i as int].instructions@[jj].phi_def().unwrap();
                                let k2 = choose|k2: int|
                                    0 <= k2 < pre_defs.len() && (#[trigger] pre_defs[k2]).0 == v
                                        && pre_defs[k2].1@.contains(i);
                                assert(defs@[k2].0 == v && defs@[k2].1@.contains(i));
                            }
                        }
                        assert forall|v: Value, x: usize|
                            (x as int) < i && defines_in_block(m0, v, x) implies exists|k2: int|
                            0 <= k2 < defs@.len() && (#[trigger] defs@[k2]).0 == v
                                && defs@[k2].1@.contains(x) by {
                            let k2 = choose|k2: int|
                                0 <= k2 < pre_defs.len() && (#[trigger] pre_defs[k2]).0 == v
                                    && pre_defs[k2].1@.contains(x);
                            assert(defs@[k2].0 == v && defs@[k2].1@.contains(x));
                        }
                    }
                }
                proof {
                    assert forall|jj: int|
                        0 <= jj < j + 1 implies ((#[trigger] module.blocks@[i as int].instructions@[jj]).phi_def() matches Some(v)
                            ==> exists|k2: int|
                            0 <= k2 < defs@.len() && (#[trigger] defs@[k2]).0 == v
                                && defs@[k2].1@.contains(i)) by {
                        if jj == j {
                            assert(module.blocks@[i as int].instructions@[jj].phi_def() == Some(
                                dest,
                            ));
                        }
                    }
                }
            }
        }
        proof {
            assert forall|v: Value, x: usize|
                (x as int) < i + 1 && defines_in_block(m0, v, x) implies exists|k: int|
                0 <= k < defs@.len() && (#[trigger] defs@[k]).0 == v && defs@[k].1@.contains(
                    x,
                ) by {
                if x as int == i {
                    let jj = choose|jj: int|
                        0 <= jj < m0.blocks@[x as int].instructions@.len()
                            && (#[trigger] m0.blocks@[x as int].instructions@[jj]).phi_def()
                            == Some(v);
                    assert(module.blocks@[i as int].instructions@[jj].phi_def() == Some(v));
                }
            }
        }
    }
    let dom_fronts = get_dom_fronts(module);
    let ghost df = dom_fronts@;
    proof {
        let doms = choose|doms: Seq<Option<usize>>|
            #[trigger] dom_ok(module_adj(m0), 0, doms) && frontier_ok(module_adj(m0), doms, df);
        assert forall|x2: int, u2: int|
            0 <= x2 < n && 0 <= u2 < df[x2]@.len() implies (#[trigger] df[x2]@[u2] as int)
            < n by {
            assert(df[x2]@.contains(df[x2]@[u2]));
            assert(front_mem(module_adj(m0), doms, x2 as usize, df[x2]@[u2]));
        }
    }
    let dlen = defs.len();
    for k in 0..dlen
        invariant
            n == module.blocks@.len(),
            n == m0.blocks@.len(),
            n > 0,
            df == dom_fronts@,
            df.len() == n,
            dlen == defs@.len(),
            forall|x2: int, u2: int|
                0 <= x2 < n && 0 <= u2 < df[x2]@.len() ==> (#[trigger] df[x2]@[u2] as int) < n,
            forall|kk: int, x: usize|
                0 <= kk < defs@.len() && #[trigger] defs@[kk].1@.contains(x) ==> (x as int) < n
                    && defines_in_block(m0, defs@[kk].0, x),
            forall|v: Value, x: usize|
                (x as int) < n && defines_in_block(m0, v, x) ==> exists|kk: int|
                    0 <= kk < defs@.len() && (#[trigger] defs@[kk]).0 == v && defs@[kk].1@.contains(
                        x,
                    ),
            params_grown(m0, *module),
            forall|kk: int, x: usize, y: usize|
                #![trigger defs@[kk].1@.contains(x), df[x as int]@.contains(y)]
                0 <= kk < k && defs@[kk].1@.contains(x) && (x as int) < n && df[x as int]@.contains(
                    y,
                ) && (y as int) < n ==> module.blocks@[y as int].params@.contains(defs@[kk].0),
            forall|k1: int, k2: int|
                0 <= k1 < k2 < defs@.len() ==> (#[trigger] defs@[k1]).0 != (#[trigger] defs@[k2]).0,
            forall|v: Value, y: usize|
                #[trigger] added_param(m0, *module, v, y) ==> exists|kk: int|
                    0 <= kk < k && (#[trigger] defs@[kk]).0 == v,
            added_grounded(m0, *module, df),
            forall|kk: int, x: usize, y: usize|
                #![trigger added_param(m0, *module, defs@[kk].0, x), df[x as int]@.contains(y)]
                0 <= kk < k && added_param(m0, *module, defs@[kk].0, x) && (x as int) < n
                    && df[x as int]@.contains(y) && (y as int) < n
                    ==> module.blocks@[y as int].params@.contains(defs@[kk].0),
            df_covered(m0, df) ==> module_eq(m0, *module),
    {
        let variable = defs[k].0;
        let mut w = clone_indices(&defs[k].1);
        let mut enqueued: Vec<bool> = Vec::new();
        for v in 0..n
            invariant
                enqueued@.len() == v,
                forall|t: int| 0 <= t < v ==> !enqueued@[t],
        {
            enqueued.push(false);
        }
        proof {
            assert forall|u: int| 0 <= u < w@.len() implies (#[trigger] w@[u] as int) < n by {
                assert(defs@[k as int].1@.contains(w@[u]));
            }
        }
        let wlen = w.len();
        for t in 0..wlen
            invariant
                wlen == w@.len(),
                enqueued@.len() == n,
                w@ == defs@[k as int].1@,
                dlen == defs@.len(),
                (k as int) < dlen,
                forall|u: int| 0 <= u < w@.len() ==> (#[trigger] w@[u] as int) < n,
                forall|u: int| 0 <= u < t ==> enqueued@[w@[u] as int],
                forall|x: int| 0 <= x < n && enqueued@[x] ==> w@.contains(x as usize),
        {
            proof {
                assert(defs@[k as int].1@.contains(w@[t as int]));
            }
            enqueued[w[t]] = true;
            proof {
                assert(w@.contains(w@[t as int]));
            }
        }
        proof {
            crate::graph::lemma_marks_le(enqueued@, n as int);
            assert forall|x: usize|
                #[trigger] added_param(m0, *module, variable, x) implies enqueued@[x as int] by {
                let kk = choose|kk: int|
                    0 <= kk < k && (#[trigger] defs@[kk]).0 == variable;
                assert(defs@[kk].0 != defs@[k as int].0);
                assert(false);
            }
            assert forall|x: usize|
                (x as int) < n && enqueued@[x as int] implies defines_in_block(m0, variable, x)
                    || added_param(m0, *module, variable, x) by {
                assert(w@.contains(x));
                assert(defs@[k as int].1@.contains(x));
            }
        }
        while w.len() > 0
            invariant
                n == module.blocks@.len(),
                n == m0.blocks@.len(),
                n > 0,
                df == dom_fronts@,
                df.len() == n,
                dlen == defs@.len(),
                (k as int) < dlen,
                variable == defs@[k as int].0,
                enqueued@.len() == n,
                forall|x2: int, u2: int|
                    0 <= x2 < n && 0 <= u2 < df[x2]@.len() ==> (#[trigger] df[x2]@[u2] as int)
                        < n,
                crate::graph::marks_before(enqueued@, n as int) <= n,
                forall|u: int| 0 <= u < w@.len() ==> (#[trigger] w@[u] as int) < n,
                forall|u: int| 0 <= u < w@.len() ==> enqueued@[#[trigger] w@[u] as int],
                forall|x: usize| defs@[k as int].1@.contains(x) ==> enqueued@[x as int],
                forall|kk: int, x: usize|
                    0 <= kk < defs@.len() && #[trigger] defs@[kk].1@.contains(x) ==> (x as int) < n
                        && defines_in_block(m0, defs@[kk].0, x),
                params_grown(m0, *module),
                forall|kk: int, x: usize, y: usize|
                    #![trigger defs@[kk].1@.contains(x), df[x as int]@.contains(y)]
                    0 <= kk < k && defs@[kk].1@.contains(x) && (x as int) < n && df[x as int]@.contains(
                        y,
                    ) && (y as int) < n ==> module.blocks@[y as int].params@.contains(defs@[kk].0),
                forall|x: usize, y: usize|
                    #![trigger enqueued@[x as int], df[x as int]@.contains(y)]
                    (x as int) < n && enqueued@[x as int] && !w@.contains(x) && df[x as int]@.contains(
                        y,
                    ) && (y as int) < n ==> module.blocks@[y as int].params@.contains(variable),
                forall|k1: int, k2: int|
                    0 <= k1 < k2 < defs@.len() ==> (#[trigger] defs@[k1]).0 != (
                    #[trigger] defs@[k2]).0,
                forall|v: Value, y: usize|
                    #[trigger] added_param(m0, *module, v, y) ==> exists|kk: int|
                        0 <= kk <= k && (#[trigger] defs@[kk]).0 == v,
                added_grounded(m0, *module, df),
                forall|kk: int, x: usize, y: usize|
                    #![trigger added_param(m0, *module, defs@[kk].0, x), df[x as int]@.contains(y)]
                    0 <= kk < k && added_param(m0, *module, defs@[kk].0, x) && (x as int) < n
                        && df[x as int]@.contains(y) && (y as int) < n
                        ==> module.blocks@[y as int].params@.contains(defs@[kk].0),
                forall|x: usize|
                    (x as int) < n && enqueued@[x as int] ==> defines_in_block(m0, variable, x)
                        || added_param(m0, *module, variable, x),
                forall|x: usize|
                    #[trigger] added_param(m0, *module, variable, x) ==> enqueued@[x as int],
                df_covered(m0, df) ==> (module_eq(m0, *module) && (forall|u: int|
                    0 <= u < w@.len() ==> defines_in_block(m0, variable, #[trigger] w@[u]))),
            decreases (n as int) - crate::graph::marks_before(enqueued@, n as int), w@.len(),
        {
            let ghost pre_marks = crate::graph::marks_before(enqueued@, n as int);
            let ghost pre_w = w@;
            let x = w[w.len() - 1];
            w.pop();
            proof {
                assert(pre_w[pre_w.len() - 1] == x);
                assert(w@ == pre_w.drop_last());
                assert(forall|u: int| 0 <= u < w@.len() ==> w@[u] == pre_w[u]);
            }
            let frontier_len = dom_fronts[x].len();
            for u in 0..frontier_len
                invariant
                    n == module.blocks@.len(),
                    n == m0.blocks@.len(),
                    n > 0,
                    df == dom_fronts@,
                    df.len() == n,
                    dlen == defs@.len(),
                    (k as int) < dlen,
                    variable == defs@[k as int].0,
                    enqueued@.len() == n,
                    (x as int) < n,
                    enqueued@[x as int],
                    frontier_len == df[x as int]@.len(),
                    forall|x2: int, u2: int|
                        0 <= x2 < n && 0 <= u2 < df[x2]@.len() ==> (#[trigger] df[x2]@[u2] as int)
                            < n,
                    crate::graph::marks_before(enqueued@, n as int) <= n,
                    crate::graph::marks_before(enqueued@, n as int) == pre_marks ==> w@.len()
                        <= pre_w.len() - 1,
                    crate::graph::marks_before(enqueued@, n as int) >= pre_marks,
                    forall|uu: int| 0 <= uu < w@.len() ==> (#[trigger] w@[uu] as int) < n,
                    forall|uu: int| 0 <= uu < w@.len() ==> enqueued@[#[trigger] w@[uu] as int],
                    forall|xx: usize| defs@[k as int].1@.contains(xx) ==> enqueued@[xx as int],
                    forall|kk: int, xx: usize|
                        0 <= kk < defs@.len() && #[trigger] defs@[kk].1@.contains(xx) ==> (
                        xx as int) < n && defines_in_block(m0, defs@[kk].0, xx),
                    params_grown(m0, *module),
                    forall|kk: int, xx: usize, y: usize|
                        #![trigger defs@[kk].1@.contains(xx), df[xx as int]@.contains(y)]
                        0 <= kk < k && defs@[kk].1@.contains(xx) && (xx as int) < n && df[xx as int]@.contains(
                            y,
                        ) && (y as int) < n ==> module.blocks@[y as int].params@.contains(
                            defs@[kk].0,
                        ),
                    forall|k1: int, k2: int|
                        0 <= k1 < k2 < defs@.len() ==> (#[trigger] defs@[k1]).0 != (
                        #[trigger] defs@[k2]).0,
                    forall|v: Value, y: usize|
                        #[trigger] added_param(m0, *module, v, y) ==> exists|kk: int|
                            0 <= kk <= k && (#[trigger] defs@[kk]).0 == v,
                    added_grounded(m0, *module, df),
                    forall|kk: int, xx: usize, y: usize|
                        #![trigger added_param(m0, *module, defs@[kk].0, xx), df[xx as int]@.contains(y)]
                        0 <= kk < k && added_param(m0, *module, defs@[kk].0, xx) && (xx as int) < n
                            && df[xx as int]@.contains(y) && (y as int) < n
                            ==> module.blocks@[y as int].params@.contains(defs@[kk].0),
                    forall|xx: usize|
                        (xx as int) < n && enqueued@[xx as int] ==> defines_in_block(
                            m0,
                            variable,
                            xx,
                        ) || added_param(m0, *module, variable, xx),
                    forall|xx: usize|
                        #[trigger] added_param(m0, *module, variable, xx) ==> enqueued@[xx as int],
                    forall|xx: usize, y: usize|
                        #![trigger enqueued@[xx as int], df[xx as int]@.contains(y)]
                        (xx as int) < n && enqueued@[xx as int] && !w@.contains(xx) && xx != x
                            && df[xx as int]@.contains(y) && (y as int) < n
                            ==> module.blocks@[y as int].params@.contains(variable),
                    forall|uu: int|
                        0 <= uu < u ==> (df[x as int]@[uu] as int) < n
                            && module.blocks@[#[trigger] df[x as int]@[uu] as int].params@.contains(
                            variable,
                        ),
                    df_covered(m0, df) ==> (module_eq(m0, *module) && defines_in_block(
                        m0,
                        variable,
                        x,
                    ) && (forall|uu: int|
                        0 <= uu < w@.len() ==> defines_in_block(m0, variable, #[trigger] w@[uu]))),
                decreases (n as int) - crate::graph::marks_before(enqueued@, n as int),
                    frontier_len - u,
            {
                let y = dom_fronts[x][u];
                proof {
                    assert(df[x as int]@.contains(y)) by {
                        assert(df[x as int]@[u as int] == y);
                    }
                    assert((y as int) < n) by {
                        assert((df[x as int]@[u as int] as int) < n);
                    }
                }
                if !contains_value(&module.blocks[y].params, variable) {
                    let ghost pre_m = *module;
                    let blk = &mut module.blocks[y];
                    blk.params.push(variable);
                    let ghost pre_e = enqueued@;
                    let ghost pre_w2 = w@;
                    if !enqueued[y] {
                        enqueued[y] = true;
                        w.push(y);
                        proof {
                            crate::graph::lemma_marks_update(pre_e, y as int, n as int);
                            crate::graph::lemma_marks_le(enqueued@, n as int);
                        }
                    }
                    proof {
                        assert(module.blocks@[y as int].params@ == pre_m.blocks@[y as int].params@.push(
                            variable,
                        ));
                        assert(forall|bi: int|
                            0 <= bi < n && bi != y ==> #[trigger] module.blocks@[bi]
                                == pre_m.blocks@[bi]);
                        assert(module.blocks@[y as int].params@.contains(variable)) by {
                            assert(module.blocks@[y as int].params@.last() == variable);
                        }
                        assert forall|bi: int|
                            0 <= bi < n implies (#[trigger] m0.blocks@[bi].params@).is_prefix_of(
                            module.blocks@[bi].params@,
                        ) by {
                            if bi == y {
                                let a = m0.blocks@[bi].params@;
                                let b = pre_m.blocks@[bi].params@;
                                assert(a.is_prefix_of(b));
                                assert(b.push(variable).take(a.len() as int) =~= b.take(
                                    a.len() as int,
                                ));
                            }
                        }
                        assert forall|bi: int|
                            0 <= bi < n implies (#[trigger] module.blocks@[bi].params@.skip(
                            m0.blocks@[bi].params@.len() as int,
                        )).no_duplicates() by {
                            if bi == y {
                                let ol = m0.blocks@[bi].params@.len() as int;
                                let pre = pre_m.blocks@[bi].params@;
                                assert(pre.skip(ol).no_duplicates());
                                assert(module.blocks@[bi].params@.skip(ol) =~= pre.skip(ol).push(
                                    variable,
                                ));
                                assert(!pre.skip(ol).contains(variable)) by {
                                    if pre.skip(ol).contains(variable) {
                                        let wi = choose|wi: int|
                                            0 <= wi < pre.skip(ol).len() && pre.skip(ol)[wi]
                                                == variable;
                                        assert(pre[ol + wi] == variable);
                                        assert(pre.contains(variable));
                                    }
                                }
                                assert forall|w1: int, w2: int|
                                    0 <= w1 < module.blocks@[bi].params@.skip(ol).len() && 0 <= w2
                                        < module.blocks@[bi].params@.skip(ol).len() && w1 != w2
                                        implies module.blocks@[bi].params@.skip(ol)[w1]
                                        != module.blocks@[bi].params@.skip(ol)[w2] by {
                                    let sfx = pre.skip(ol).push(variable);
                                    if w1 < pre.skip(ol).len() && w2 < pre.skip(ol).len() {
                                    } else if w2 == pre.skip(ol).len() {
                                        assert(sfx[w2] == variable);
                                        assert(sfx[w1] == pre.skip(ol)[w1]);
                                        assert(pre.skip(ol).contains(pre.skip(ol)[w1]));
                                    } else {
                                        assert(sfx[w1] == variable);
                                        assert(sfx[w2] == pre.skip(ol)[w2]);
                                        assert(pre.skip(ol).contains(pre.skip(ol)[w2]));
                                    }
                                }
                            } else {
                                assert(module.blocks@[bi] == pre_m.blocks@[bi]);
                            }
                        }
                        assert forall|bi: int, k2: int|
                            0 <= bi < n && m0.blocks@[bi].params@.len() <= k2
                                < module.blocks@[bi].params@.len() implies !m0.blocks@[bi].params@.contains(
                            #[trigger] module.blocks@[bi].params@[k2],
                        ) by {
                            if bi == y {
                                if k2 < pre_m.blocks@[bi].params@.len() {
                                    assert(module.blocks@[bi].params@[k2]
                                        == pre_m.blocks@[bi].params@[k2]);
                                } else {
                                    assert(module.blocks@[bi].params@[k2] == variable);
                                    assert(!m0.blocks@[bi].params@.contains(variable)) by {
                                        if m0.blocks@[bi].params@.contains(variable) {
                                            let a = m0.blocks@[bi].params@;
                                            let pre = pre_m.blocks@[bi].params@;
                                            let wi = choose|wi: int|
                                                0 <= wi < a.len() && a[wi] == variable;
                                            assert(pre.take(a.len() as int) =~= a);
                                            assert(pre[wi] == variable);
                                            assert(pre.contains(variable));
                                        }
                                    }
                                }
                            } else {
                                assert(module.blocks@[bi] == pre_m.blocks@[bi]);
                            }
                        }
                        assert(added_param(m0, *module, variable, y)) by {
                            assert(!m0.blocks@[y as int].params@.contains(variable)) by {
                                if m0.blocks@[y as int].params@.contains(variable) {
                                    let a = m0.blocks@[y as int].params@;
                                    let pre = pre_m.blocks@[y as int].params@;
                                    let wi = choose|wi: int| 0 <= wi < a.len() && a[wi] == variable;
                                    assert(pre.take(a.len() as int) =~= a);
                                    assert(pre[wi] == variable);
                                    assert(pre.contains(variable));
                                }
                            }
                        }
                        assert forall|v: Value, y2: usize|
                            #[trigger] added_param(m0, *module, v, y2) && !(v == variable && y2
                                == y) implies added_param(m0, pre_m, v, y2) by {
                            if y2 != y {
                                assert(module.blocks@[y2 as int] == pre_m.blocks@[y2 as int]);
                            } else {
                                let wi = choose|wi: int|
                                    0 <= wi < module.blocks@[y as int].params@.len()
                                        && module.blocks@[y as int].params@[wi] == v;
                                assert(wi < pre_m.blocks@[y as int].params@.len());
                                assert(pre_m.blocks@[y as int].params@[wi] == v);
                            }
                        }
                        assert forall|v: Value, y2: usize|
                            #[trigger] added_param(m0, pre_m, v, y2) implies added_param(
                            m0,
                            *module,
                            v,
                            y2,
                        ) by {
                            if y2 == y {
                                let wi = choose|wi: int|
                                    0 <= wi < pre_m.blocks@[y as int].params@.len()
                                        && pre_m.blocks@[y as int].params@[wi] == v;
                                assert(module.blocks@[y as int].params@[wi] == v);
                            } else {
                                assert(module.blocks@[y2 as int] == pre_m.blocks@[y2 as int]);
                            }
                        }
                        assert forall|v: Value, y2: usize|
                            #[trigger] added_param(m0, *module, v, y2) implies exists|kk: int|
                            0 <= kk <= k && (#[trigger] defs@[kk]).0 == v by {
                            if v == variable && y2 == y {
                                assert(defs@[k as int].0 == variable);
                            } else {
                                assert(added_param(m0, pre_m, v, y2));
                            }
                        }
                        assert(enqueued@[y as int]);
                        assert forall|xx: usize|
                            #[trigger] added_param(m0, *module, variable, xx)
                                implies enqueued@[xx as int] by {
                            if xx != y {
                                assert(added_param(m0, pre_m, variable, xx));
                                assert(enqueued@[xx as int] == pre_e[xx as int]);
                            }
                        }
                        assert forall|xx: usize|
                            (xx as int) < n && enqueued@[xx as int] implies defines_in_block(
                            m0,
                            variable,
                            xx,
                        ) || added_param(m0, *module, variable, xx) by {
                            if xx == y {
                            } else {
                                assert(pre_e[xx as int]);
                            }
                        }
                        assert forall|kk: int, xx: usize, y2: usize|
                            #![trigger added_param(m0, *module, defs@[kk].0, xx), df[xx as int]@.contains(y2)]
                            0 <= kk < k && added_param(m0, *module, defs@[kk].0, xx) && (xx as int)
                                < n && df[xx as int]@.contains(y2) && (y2 as int) < n
                                implies module.blocks@[y2 as int].params@.contains(defs@[kk].0)
                            by {
                            assert(defs@[kk].0 != variable) by {
                                assert(defs@[kk].0 != defs@[k as int].0);
                            }
                            assert(added_param(m0, pre_m, defs@[kk].0, xx));
                            assert(pre_m.blocks@[y2 as int].params@.contains(defs@[kk].0));
                            if y2 as int == y as int {
                                let wi = choose|wi: int|
                                    0 <= wi < pre_m.blocks@[y2 as int].params@.len()
                                        && pre_m.blocks@[y2 as int].params@[wi] == defs@[kk].0;
                                assert(module.blocks@[y2 as int].params@[wi] == defs@[kk].0);
                            }
                        }
                        assert(added_grounded(m0, *module, df)) by {
                            assert forall|v: Value, y2: usize|
                                #[trigger] added_param(m0, *module, v, y2) implies in_idf(
                                m0,
                                df,
                                v,
                                y2,
                            ) by {
                                if v == variable && y2 == y {
                                    assert(df[x as int]@.contains(y));
                                    assert((x as int) < df.len());
                                    if defines_in_block(m0, variable, x) {
                                        let tr = seq![x, y];
                                        assert(idf_trace(m0, df, variable, tr)) by {
                                            assert(tr[0] == x && tr[1] == y);
                                            assert(df[tr[0] as int]@.contains(tr[1]));
                                            assert forall|i2: int|
                                                #![trigger tr[i2]]
                                                0 <= i2 < tr.len() - 1 implies (tr[i2] as int)
                                                < df.len() && df[tr[i2] as int]@.contains(
                                                tr[i2 + 1],
                                            ) by {
                                                assert(i2 == 0);
                                            }
                                        }
                                        assert(tr.last() == y);
                                    } else {
                                        assert(added_param(m0, pre_m, variable, x));
                                        assert(in_idf(m0, df, variable, x));
                                        let trx = choose|trx: Seq<usize>|
                                            #[trigger] idf_trace(m0, df, variable, trx)
                                                && trx.last() == x;
                                        lemma_trace_extend(m0, df, variable, trx, x, y);
                                        assert(idf_trace(m0, df, variable, trx.push(y))
                                            && trx.push(y).last() == y);
                                    }
                                } else {
                                    assert(added_param(m0, pre_m, v, y2));
                                }
                            }
                        }
                        assert forall|kk: int, xx: usize, y2: usize|
                            #![trigger defs@[kk].1@.contains(xx), df[xx as int]@.contains(y2)]
                            0 <= kk < k && defs@[kk].1@.contains(xx) && (xx as int) < n
                                && df[xx as int]@.contains(y2) && (y2 as int) < n
                                implies module.blocks@[y2 as int].params@.contains(defs@[kk].0)
                            by {
                            assert(pre_m.blocks@[y2 as int].params@.contains(defs@[kk].0));
                            if y2 as int == y as int {
                                let wi = choose|wi: int|
                                    0 <= wi < pre_m.blocks@[y2 as int].params@.len()
                                        && pre_m.blocks@[y2 as int].params@[wi] == defs@[kk].0;
                                assert(module.blocks@[y2 as int].params@[wi] == defs@[kk].0);
                            }
                        }
                        assert forall|xx: usize, y2: usize|
                            #![trigger enqueued@[xx as int], df[xx as int]@.contains(y2)]
                            (xx as int) < n && enqueued@[xx as int] && !w@.contains(xx) && xx != x
                                && df[xx as int]@.contains(y2) && (y2 as int) < n
                                implies module.blocks@[y2 as int].params@.contains(variable) by {
                            assert(pre_e[xx as int]) by {
                                if xx == y {
                                    assert(w@.contains(y) || pre_e[y as int]) by {
                                        if !pre_e[y as int] {
                                            assert(w@.last() == y);
                                        }
                                    }
                                }
                            }
                            assert(!pre_w2.contains(xx)) by {
                                if pre_w2.contains(xx) {
                                    let wi = choose|wi: int|
                                        0 <= wi < pre_w2.len() && pre_w2[wi] == xx;
                                    assert(w@[wi] == xx);
                                }
                            }
                            assert(pre_m.blocks@[y2 as int].params@.contains(variable));
                            if y2 as int == y as int {
                                let wi = choose|wi: int|
                                    0 <= wi < pre_m.blocks@[y2 as int].params@.len()
                                        && pre_m.blocks@[y2 as int].params@[wi] == variable;
                                assert(module.blocks@[y2 as int].params@[wi] == variable);
                            }
                        }
                        assert forall|uu: int| 0 <= uu < u + 1 implies (df[x as int]@[uu] as int)
                            < n && module.blocks@[#[trigger] df[x as int]@[uu] as int].params@.contains(
                            variable,
                        ) by {
                            if uu < u {
                                assert(pre_m.blocks@[df[x as int]@[uu] as int].params@.contains(
                                    variable,
                                ));
                                if df[x as int]@[uu] == y {
                                    let wi = choose|wi: int|
                                        0 <= wi < pre_m.blocks@[y as int].params@.len()
                                            && pre_m.blocks@[y as int].params@[wi] == variable;
                                    assert(module.blocks@[y as int].params@[wi] == variable);
                                }
                            } else {
                                assert(df[x as int]@[uu] == y);
                            }
                        }
                        if df_covered(m0, df) {
                            assert(defines_in_block(m0, variable, x));
                            assert(m0.blocks@[y as int].params@.contains(variable));
                            assert(pre_m.blocks@[y as int].params@.contains(variable));
                            assert(false);
                        }
                    }
                } else {
                    proof {
                        assert(module.blocks@[y as int].params@.contains(variable));
                        assert forall|uu: int| 0 <= uu < u + 1 implies (df[x as int]@[uu] as int)
                            < n && module.blocks@[#[trigger] df[x as int]@[uu] as int].params@.contains(
                            variable,
                        ) by {
                            if uu == u {
                                assert(df[x as int]@[uu] == y);
                            }
                        }
                    }
                }
            }
            proof {
                assert forall|xx: usize, y: usize|
                    #![trigger enqueued@[xx as int], df[xx as int]@.contains(y)]
                    (xx as int) < n && enqueued@[xx as int] && !w@.contains(xx) && df[xx as int]@.contains(
                        y,
                    ) && (y as int) < n implies module.blocks@[y as int].params@.contains(
                    variable,
                ) by {
                    if xx == x {
                        let wi = choose|wi: int|
                            0 <= wi < df[xx as int]@.len() && df[xx as int]@[wi] == y;
                        assert(module.blocks@[df[x as int]@[wi] as int].params@.contains(
                            variable,
                        ));
                    }
                }
            }
        }
        proof {
            assert forall|kk: int, x: usize, y: usize|
                #![trigger defs@[kk].1@.contains(x), df[x as int]@.contains(y)]
                0 <= kk < k + 1 && defs@[kk].1@.contains(x) && (x as int) < n && df[x as int]@.contains(
                    y,
                ) && (y as int) < n implies module.blocks@[y as int].params@.contains(
                defs@[kk].0,
            ) by {
                if kk == k {
                    assert(enqueued@[x as int]);
                    assert(!w@.contains(x));
                }
            }
            assert forall|kk: int, x: usize, y: usize|
                #![trigger added_param(m0, *module, defs@[kk].0, x), df[x as int]@.contains(y)]
                0 <= kk < k + 1 && added_param(m0, *module, defs@[kk].0, x) && (x as int) < n
                    && df[x as int]@.contains(y) && (y as int) < n
                    implies module.blocks@[y as int].params@.contains(defs@[kk].0) by {
                if kk == k {
                    assert(enqueued@[x as int]);
                    assert(!w@.contains(x));
                }
            }
        }
    }
    proof {
        let doms = choose|doms: Seq<Option<usize>>|
            #[trigger] dom_ok(module_adj(m0), 0, doms) && frontier_ok(module_adj(m0), doms, df);
        assert(df_covered(*module, df)) by {
            assert forall|v: Value, x: usize, y: usize|
                defines_in_block(*module, v, x) && (x as int) < df.len()
                    && #[trigger] df[x as int]@.contains(y) && (y as int)
                    < module.blocks@.len() implies #[trigger] module.blocks@[y as int].params@.contains(
                v,
            ) by {
                assert(defines_in_block(m0, v, x)) by {
                    assert(module.blocks@[x as int].instructions@
                        == m0.blocks@[x as int].instructions@);
                    let i = choose|i: int|
                        0 <= i < module.blocks@[x as int].instructions@.len()
                            && (#[trigger] module.blocks@[x as int].instructions@[i]).phi_def()
                            == Some(v);
                    assert(m0.blocks@[x as int].instructions@[i].phi_def() == Some(v));
                }
                let kk = choose|kk: int|
                    0 <= kk < defs@.len() && (#[trigger] defs@[kk]).0 == v && defs@[kk].1@.contains(
                        x,
                    );
            }
        }
        assert(df_saturated(m0, *module, df)) by {
            assert forall|v: Value, x: usize, y: usize|
                #![trigger defines_in_block(m0, v, x), df[x as int]@.contains(y)]
                #![trigger added_param(m0, *module, v, x), df[x as int]@.contains(y)]
                (defines_in_block(m0, v, x) || added_param(m0, *module, v, x)) && (x as int)
                    < df.len() && df[x as int]@.contains(y) && (y as int)
                    < module.blocks@.len() implies module.blocks@[y as int].params@.contains(
                v,
            ) by {
                if defines_in_block(m0, v, x) {
                    let kk = choose|kk: int|
                        0 <= kk < defs@.len() && (#[trigger] defs@[kk]).0 == v
                            && defs@[kk].1@.contains(x);
                    assert(module.blocks@[y as int].params@.contains(defs@[kk].0));
                } else {
                    let kk = choose|kk: int|
                        0 <= kk < dlen && (#[trigger] defs@[kk]).0 == v;
                    assert(added_param(m0, *module, defs@[kk].0, x));
                    assert(module.blocks@[y as int].params@.contains(defs@[kk].0));
                }
            }
        }
        assert(phi_rel(m0, *module, df));
        assert(phi_insertion(m0, *module)) by {
            assert(dom_ok(module_adj(m0), 0, doms) && frontier_ok(module_adj(m0), doms, df)
                && phi_rel(m0, *module, df));
        }
    }
}

} // verus!
