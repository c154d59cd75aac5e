//! The dominator-tree engine (iterative data-flow fixed point over reverse
//! postorder) and the dominance-frontier engine derived from it.

use crate::graph::{
    adj_wf, edge, is_path, preds_seq, rpo_ok, Graph, lemma_preds_seq_contains, reachable,
};
use vstd::prelude::*;

verus! {

/// The recorded dominator of `b` (meaningful where the slot is set).
pub open spec fn dval(doms: Seq<Option<usize>>, b: usize) -> usize {
    doms[b as int]->Some_0
}

/// The position of `b` in the traversal order `rpo`.
pub open spec fn rank_of(rpo: Seq<usize>, b: usize) -> int {
    rpo.index_of(b)
}

/// The position of a listed block is a real index, holds the block, and is
/// its only occurrence.
pub proof fn lemma_rank(rpo: Seq<usize>, b: usize)
    requires
        rpo.no_duplicates(),
        rpo.contains(b),
    ensures
        0 <= rank_of(rpo, b) < rpo.len(),
        rpo[rank_of(rpo, b)] == b,
        forall|i: int| 0 <= i < rpo.len() && rpo[i] == b ==> i == rank_of(rpo, b),
{
    let r = rank_of(rpo, b);
    assert(rpo[r] == b);
}

/// Well-formed recorded dominator chains over the order `rpo`: exactly the
/// listed blocks have a recorded dominator, the start block records itself,
/// and every other recorded dominator is a listed block placed strictly
/// earlier in the order.
pub open spec fn chain_wf(start: usize, rpo: Seq<usize>, doms: Seq<Option<usize>>) -> bool {
    &&& rpo.no_duplicates()
    &&& (start as int) < doms.len()
    &&& forall|i: int| 0 <= i < rpo.len() ==> (#[trigger] rpo[i] as int) < doms.len()
    &&& doms[start as int] == Some(start)
    &&& forall|b: usize|
        #![trigger dval(doms, b)]
        (b as int) < doms.len() && doms[b as int] is Some ==> rpo.contains(b) && (dval(
            doms,
            b,
        ) as int) < doms.len() && rpo.contains(dval(doms, b)) && doms[dval(doms, b) as int]
            is Some && (b != start ==> rank_of(rpo, dval(doms, b)) < rank_of(rpo, b))
}

/// Unpacks the chain clause for one block with a recorded dominator.
pub proof fn lemma_slot(start: usize, rpo: Seq<usize>, doms: Seq<Option<usize>>, b: usize)
    requires
        chain_wf(start, rpo, doms),
        (b as int) < doms.len(),
        doms[b as int] is Some,
    ensures
        rpo.contains(b),
        (dval(doms, b) as int) < doms.len(),
        rpo.contains(dval(doms, b)),
        doms[dval(doms, b) as int] is Some,
        b != start ==> rank_of(rpo, dval(doms, b)) < rank_of(rpo, b),
{
    let d = dval(doms, b);
}

/// Every listed block has a recorded dominator.
pub open spec fn all_set(rpo: Seq<usize>, doms: Seq<Option<usize>>) -> bool {
    forall|i: int| 0 <= i < rpo.len() ==> (#[trigger] doms[rpo[i] as int]) is Some
}

/// A well-formed dominator array over the order `rpo`: the order is a valid
/// reverse postorder and the recorded chains are well formed over it.
pub open spec fn doms_wf(
    adj: Seq<Seq<usize>>,
    start: usize,
    rpo: Seq<usize>,
    doms: Seq<Option<usize>>,
) -> bool {
    &&& rpo_ok(adj, start, rpo)
    &&& doms.len() == adj.len()
    &&& chain_wf(start, rpo, doms)
}

/// The block reached from `b` by following recorded dominators `k` times.
pub open spec fn idom_iter(doms: Seq<Option<usize>>, b: usize, k: nat) -> usize
    decreases k,
{
    if k == 0 {
        b
    } else {
        dval(doms, idom_iter(doms, b, (k - 1) as nat))
    }
}

/// `d` is an ancestor of `b` (or `b` itself) in the recorded dominator tree.
pub open spec fn tree_dom(doms: Seq<Option<usize>>, d: usize, b: usize) -> bool {
    exists|k: nat| idom_iter(doms, b, k) == d
}

/// Following dominators composes: `k1 + k2` steps are `k1` steps then `k2`.
pub proof fn lemma_iter_compose(doms: Seq<Option<usize>>, b: usize, k1: nat, k2: nat)
    ensures
        idom_iter(doms, b, k1 + k2) == idom_iter(doms, idom_iter(doms, b, k1), k2),
    decreases k2,
{
    if k2 > 0 {
        lemma_iter_compose(doms, b, k1, (k2 - 1) as nat);
    }
}

/// The start block's chain never leaves the start block.
pub proof fn lemma_iter_start(
    start: usize,
    rpo: Seq<usize>,
    doms: Seq<Option<usize>>,
    k: nat,
)
    requires
        chain_wf(start, rpo, doms),
    ensures
        idom_iter(doms, start, k) == start,
    decreases k,
{
    if k > 0 {
        lemma_iter_start(start, rpo, doms, (k - 1) as nat);
    }
}

/// Every step along a listed block's chain lands on a listed block, and the
/// rank never grows: it shrinks strictly until the chain sits at start.
pub proof fn lemma_iter_in_tree(
    start: usize,
    rpo: Seq<usize>,
    doms: Seq<Option<usize>>,
    b: usize,
    k: nat,
)
    requires
        chain_wf(start, rpo, doms),
        (b as int) < doms.len(),
        doms[b as int] is Some,
    ensures
        rpo.contains(idom_iter(doms, b, k)),
        (idom_iter(doms, b, k) as int) < doms.len(),
        doms[idom_iter(doms, b, k) as int] is Some,
        rank_of(rpo, idom_iter(doms, b, k)) <= rank_of(rpo, b),
        idom_iter(doms, b, k) != b ==> rank_of(rpo, idom_iter(doms, b, k)) < rank_of(rpo, b),
    decreases k,
{
    lemma_slot(start, rpo, doms, b);
    lemma_rank(rpo, b);
    if k > 0 {
        lemma_iter_in_tree(start, rpo, doms, b, (k - 1) as nat);
        let prev = idom_iter(doms, b, (k - 1) as nat);
        let cur = idom_iter(doms, b, k);
        lemma_slot(start, rpo, doms, prev);
        lemma_rank(rpo, prev);
        assert(cur == dval(doms, prev));
        assert(doms[prev as int] is Some);
        lemma_rank(rpo, cur);
        if prev == start {
            assert(cur == start);
        } else {
            assert(rank_of(rpo, cur) < rank_of(rpo, prev));
        }
    }
}

/// A strict tree ancestor sits strictly earlier in the order.
pub proof fn lemma_tree_dom_rank(
    start: usize,
    rpo: Seq<usize>,
    doms: Seq<Option<usize>>,
    d: usize,
    b: usize,
)
    requires
        chain_wf(start, rpo, doms),
        (b as int) < doms.len(),
        doms[b as int] is Some,
        tree_dom(doms, d, b),
    ensures
        rpo.contains(d),
        (d as int) < doms.len(),
        doms[d as int] is Some,
        d != b ==> rank_of(rpo, d) < rank_of(rpo, b),
{
    let k = choose|k: nat| idom_iter(doms, b, k) == d;
    lemma_iter_in_tree(start, rpo, doms, b, k);
}

/// Tree ancestry is antisymmetric.
pub proof fn lemma_tree_dom_antisym(
    start: usize,
    rpo: Seq<usize>,
    doms: Seq<Option<usize>>,
    d: usize,
    b: usize,
)
    requires
        chain_wf(start, rpo, doms),
        (b as int) < doms.len(),
        doms[b as int] is Some,
        tree_dom(doms, d, b),
        tree_dom(doms, b, d),
    ensures
        d == b,
{
    lemma_tree_dom_rank(start, rpo, doms, d, b);
    if d != b {
        lemma_tree_dom_rank(start, rpo, doms, b, d);
    }
}

/// Two ancestors of one block lie on one chain: one is an ancestor of the
/// other.
pub proof fn lemma_tree_dom_linear(
    doms: Seq<Option<usize>>,
    d1: usize,
    d2: usize,
    b: usize,
)
    requires
        tree_dom(doms, d1, b),
        tree_dom(doms, d2, b),
    ensures
        tree_dom(doms, d2, d1) || tree_dom(doms, d1, d2),
{
    let k1 = choose|k: nat| idom_iter(doms, b, k) == d1;
    let k2 = choose|k: nat| idom_iter(doms, b, k) == d2;
    if k1 <= k2 {
        lemma_iter_compose(doms, b, k1, (k2 - k1) as nat);
        assert(idom_iter(doms, d1, (k2 - k1) as nat) == d2);
    } else {
        lemma_iter_compose(doms, b, k2, (k1 - k2) as nat);
        assert(idom_iter(doms, d2, (k1 - k2) as nat) == d1);
    }
}

/// Every listed block's chain reaches the start block.
pub proof fn lemma_tree_dom_start(
    start: usize,
    rpo: Seq<usize>,
    doms: Seq<Option<usize>>,
    b: usize,
)
    requires
        chain_wf(start, rpo, doms),
        (b as int) < doms.len(),
        doms[b as int] is Some,
    ensures
        tree_dom(doms, start, b),
    decreases rank_of(rpo, b),
{
    lemma_slot(start, rpo, doms, b);
    lemma_rank(rpo, b);
    if b == start {
        assert(idom_iter(doms, b, 0) == start);
    } else {
        let d = dval(doms, b);
        assert(doms[b as int] is Some);
        assert(rank_of(rpo, d) < rank_of(rpo, b));
        lemma_rank(rpo, d);
        assert(rank_of(rpo, d) >= 0);
        lemma_tree_dom_start(start, rpo, doms, d);
        let k = choose|k: nat| idom_iter(doms, d, k) == start;
        assert(idom_iter(doms, b, 0) == b);
        assert(idom_iter(doms, b, 1) == dval(doms, idom_iter(doms, b, 0)));
        assert(idom_iter(doms, b, 1) == d);
        lemma_iter_compose(doms, b, 1, k);
        assert(idom_iter(doms, b, 1 + k) == start);
    }
}

/// An ancestor of a strict ancestor: stepping once off `b` keeps any
/// ancestor other than `b` itself.
pub proof fn lemma_tree_dom_step(doms: Seq<Option<usize>>, d: usize, b: usize)
    requires
        tree_dom(doms, d, b),
        d != b,
    ensures
        tree_dom(doms, d, dval(doms, b)),
{
    let k = choose|k: nat| idom_iter(doms, b, k) == d;
    assert(idom_iter(doms, b, 0) == b);
    assert(k != 0);
    lemma_iter_compose(doms, b, 1, (k - 1) as nat);
    assert(idom_iter(doms, dval(doms, b), (k - 1) as nat) == d);
}

/// One more dominator step off an ancestor is still an ancestor.
proof fn lemma_tree_dom_advance(doms: Seq<Option<usize>>, b: usize, f: usize)
    requires
        tree_dom(doms, f, b),
    ensures
        tree_dom(doms, dval(doms, f), b),
{
    let k = choose|k: nat| idom_iter(doms, b, k) == f;
    assert(idom_iter(doms, b, k + 1) == dval(doms, f));
}

/// Builds the rank table of a duplicate-free order: `ord[b]` is `b`'s
/// position in `rpo` for every listed `b`.
fn build_ranks(rpo: &Vec<usize>, n: usize) -> (ord: Vec<usize>)
    requires
        rpo@.no_duplicates(),
        forall|i: int| 0 <= i < rpo@.len() ==> (#[trigger] rpo@[i] as int) < n,
    ensures
        ord@.len() == n,
        forall|b: usize|
            rpo@.contains(b) ==> (b as int) < n && #[trigger] ord@[b as int] as int == rank_of(
                rpo@,
                b,
            ),
{
    let mut ord: Vec<usize> = Vec::new();
    for v in 0..n
        invariant
            ord@.len() == v,
    {
        ord.push(0);
    }
    let m = rpo.len();
    for i in 0..m
        invariant
            m == rpo@.len(),
            ord@.len() == n,
            rpo@.no_duplicates(),
            forall|t: int| 0 <= t < rpo@.len() ==> (#[trigger] rpo@[t] as int) < n,
            forall|k: int| 0 <= k < i ==> #[trigger] ord@[rpo@[k] as int] == k,
    {
        let b = rpo[i];
        ord[b] = i;
        assert(forall|k: int|
            0 <= k < i ==> rpo@[k] != rpo@[i as int] && #[trigger] ord@[rpo@[k] as int] == k);
    }
    proof {
        assert forall|b: usize| rpo@.contains(b) implies (b as int) < n
            && #[trigger] ord@[b as int] as int == rank_of(rpo@, b) by {
            lemma_rank(rpo@, b);
            let r = rank_of(rpo@, b);
            assert(rpo@[r] == b);
            assert(ord@[rpo@[r] as int] == r);
        }
    }
    ord
}

/// Computes the nearest common ancestor of two blocks in the recorded
/// dominator forest, walking each side up its chain and always advancing the
/// side placed later in reverse postorder.
#[verifier::rlimit(100)]
pub fn intersect(b1: usize, b2: usize, doms: &Vec<Option<usize>>, rpo: &Vec<usize>) -> (r: usize)
    requires
        rpo@.len() > 0,
        chain_wf(rpo@[0], rpo@, doms@),
        (b1 as int) < doms@.len(),
        doms@[b1 as int] is Some,
        (b2 as int) < doms@.len(),
        doms@[b2 as int] is Some,
    ensures
        tree_dom(doms@, r, b1),
        tree_dom(doms@, r, b2),
        (r as int) < doms@.len(),
        doms@[r as int] is Some,
        rank_of(rpo@, r) <= rank_of(rpo@, b1),
        rank_of(rpo@, r) <= rank_of(rpo@, b2),
        forall|c: usize|
            #![trigger tree_dom(doms@, c, b1)]
            tree_dom(doms@, c, b1) && tree_dom(doms@, c, b2) ==> tree_dom(doms@, c, r),
{
    let ghost start = rpo@[0];
    let n = doms.len();
    let ordering = build_ranks(rpo, n);
    proof {
        assert(rpo@.contains(start)) by {
            assert(rpo@[0] == start);
        }
        lemma_rank(rpo@, start);
        assert(rank_of(rpo@, start) == 0);
        lemma_slot(start, rpo@, doms@, b1);
        lemma_slot(start, rpo@, doms@, b2);
        assert(idom_iter(doms@, b1, 0) == b1);
        assert(idom_iter(doms@, b2, 0) == b2);
    }
    let mut f1 = b1;
    let mut f2 = b2;
    while f1 != f2
        invariant
            rpo@.len() > 0,
            start == rpo@[0],
            chain_wf(start, rpo@, doms@),
            n == doms@.len(),
            ordering@.len() == n,
            forall|b: usize|
                rpo@.contains(b) ==> (b as int) < n && #[trigger] ordering@[b as int] as int
                    == rank_of(rpo@, b),
            (f1 as int) < n && doms@[f1 as int] is Some,
            (f2 as int) < n && doms@[f2 as int] is Some,
            tree_dom(doms@, f1, b1),
            tree_dom(doms@, f2, b2),
            rank_of(rpo@, f1) <= rank_of(rpo@, b1),
            rank_of(rpo@, f2) <= rank_of(rpo@, b2),
            rank_of(rpo@, start) == 0,
            rpo@.contains(f1),
            rpo@.contains(f2),
            forall|c: usize|
                #![trigger tree_dom(doms@, c, b1)]
                tree_dom(doms@, c, b1) && tree_dom(doms@, c, b2) ==> tree_dom(doms@, c, f1)
                    && tree_dom(doms@, c, f2),
        decreases rank_of(rpo@, f1) + rank_of(rpo@, f2),
    {
        let ghost r1_top = rank_of(rpo@, f1);
        let ghost r2_top = rank_of(rpo@, f2);
        proof {
            lemma_rank(rpo@, f1);
            lemma_rank(rpo@, f2);
            if r1_top == r2_top {
                assert(rpo@[r1_top] == f1);
                assert(rpo@[r2_top] == f2);
                assert(false);
            }
        }
        while ordering[f1] > ordering[f2]
            invariant
                rpo@.len() > 0,
                start == rpo@[0],
                chain_wf(start, rpo@, doms@),
                n == doms@.len(),
                ordering@.len() == n,
                forall|b: usize|
                    rpo@.contains(b) ==> (b as int) < n && #[trigger] ordering@[b as int] as int
                        == rank_of(rpo@, b),
                (f1 as int) < n && doms@[f1 as int] is Some,
                rpo@.contains(f1),
                tree_dom(doms@, f1, b1),
                rank_of(rpo@, f1) <= r1_top,
                rank_of(rpo@, f1) <= rank_of(rpo@, b1),
                rank_of(rpo@, start) == 0,
                (f2 as int) < n && doms@[f2 as int] is Some,
                rpo@.contains(f2),
                rank_of(rpo@, f2) == r2_top,
                forall|c: usize|
                    #![trigger tree_dom(doms@, c, b1)]
                    tree_dom(doms@, c, b1) && tree_dom(doms@, c, b2) ==> tree_dom(doms@, c, f1)
                        && tree_dom(doms@, c, f2),
            decreases rank_of(rpo@, f1),
        {
            let ghost f1_old = f1;
            proof {
                lemma_slot(start, rpo@, doms@, f1);
                lemma_rank(rpo@, f1);
                if f1 == start {
                    assert(rank_of(rpo@, f1) == 0);
                }
                lemma_tree_dom_advance(doms@, b1, f1);
            }
            f1 = doms[f1].unwrap();
            proof {
                assert(f1 == dval(doms@, f1_old));
                assert forall|c: usize|
                    #![trigger tree_dom(doms@, c, b1)]
                    tree_dom(doms@, c, b1) && tree_dom(doms@, c, b2) implies tree_dom(
                    doms@,
                    c,
                    f1,
                ) && tree_dom(doms@, c, f2) by {
                    assert(tree_dom(doms@, c, f1_old));
                    lemma_tree_dom_rank(start, rpo@, doms@, c, f2);
                    assert(c != f1_old) by {
                        assert(rank_of(rpo@, c) <= rank_of(rpo@, f2));
                    }
                    lemma_tree_dom_step(doms@, c, f1_old);
                }
            }
        }
        proof {
            assert(rank_of(rpo@, f1) <= r2_top);
        }
        while ordering[f2] > ordering[f1]
            invariant
                rpo@.len() > 0,
                start == rpo@[0],
                chain_wf(start, rpo@, doms@),
                n == doms@.len(),
                ordering@.len() == n,
                forall|b: usize|
                    rpo@.contains(b) ==> (b as int) < n && #[trigger] ordering@[b as int] as int
                        == rank_of(rpo@, b),
                (f2 as int) < n && doms@[f2 as int] is Some,
                rpo@.contains(f2),
                tree_dom(doms@, f2, b2),
                rank_of(rpo@, f2) <= r2_top,
                rank_of(rpo@, f2) <= rank_of(rpo@, b2),
                rank_of(rpo@, start) == 0,
                (f1 as int) < n && doms@[f1 as int] is Some,
                rpo@.contains(f1),
                forall|c: usize|
                    #![trigger tree_dom(doms@, c, b1)]
                    tree_dom(doms@, c, b1) && tree_dom(doms@, c, b2) ==> tree_dom(doms@, c, f1)
                        && tree_dom(doms@, c, f2),
            decreases rank_of(rpo@, f2),
        {
            let ghost f2_old = f2;
            proof {
                lemma_slot(start, rpo@, doms@, f2);
                lemma_rank(rpo@, f2);
                if f2 == start {
                    assert(rank_of(rpo@, f2) == 0);
                }
                lemma_tree_dom_advance(doms@, b2, f2);
            }
            f2 = doms[f2].unwrap();
            proof {
                assert(f2 == dval(doms@, f2_old));
                assert forall|c: usize|
                    #![trigger tree_dom(doms@, c, b1)]
                    tree_dom(doms@, c, b1) && tree_dom(doms@, c, b2) implies tree_dom(
                    doms@,
                    c,
                    f1,
                ) && tree_dom(doms@, c, f2) by {
                    assert(tree_dom(doms@, c, f2_old));
                    lemma_tree_dom_rank(start, rpo@, doms@, c, f1);
                    assert(c != f2_old) by {
                        assert(rank_of(rpo@, c) <= rank_of(rpo@, f1));
                    }
                    lemma_tree_dom_step(doms@, c, f2_old);
                }
            }
        }
        proof {
            let mn: int = if r1_top < r2_top {
                r1_top
            } else {
                r2_top
            };
            assert(rank_of(rpo@, f1) <= mn);
            assert(rank_of(rpo@, f2) <= rank_of(rpo@, f1));
            assert(mn + mn < r1_top + r2_top);
        }
    }
    f1
}

/// The contribution of block `b` to the convergence measure: the rank of
/// its recorded dominator, or the full order length while none is recorded.
pub open spec fn rank_val(rpo: Seq<usize>, doms: Seq<Option<usize>>, b: usize) -> int {
    if doms[b as int] is Some {
        rank_of(rpo, dval(doms, b))
    } else {
        rpo.len() as int
    }
}

/// The convergence measure over the first `k` listed blocks.
pub open spec fn potential_upto(rpo: Seq<usize>, doms: Seq<Option<usize>>, k: int) -> int
    decreases k,
{
    if k <= 0 {
        0
    } else {
        potential_upto(rpo, doms, k - 1) + rank_val(rpo, doms, rpo[k - 1])
    }
}

/// The convergence measure of the whole dominator array: every recorded
/// update moves a dominator strictly earlier in the order, so this sum
/// shrinks until the iteration stabilises.
pub open spec fn potential(rpo: Seq<usize>, doms: Seq<Option<usize>>) -> int {
    potential_upto(rpo, doms, rpo.len() as int)
}

/// Pointwise bounds on per-block contributions carry over to the sums, and
/// a single strict drop makes the whole sum drop.
proof fn lemma_potential_le(
    rpo: Seq<usize>,
    d1: Seq<Option<usize>>,
    d2: Seq<Option<usize>>,
    k: int,
)
    requires
        forall|i: int|
            0 <= i < k ==> rank_val(rpo, d2, #[trigger] rpo[i]) <= rank_val(rpo, d1, rpo[i]),
        k <= rpo.len(),
    ensures
        potential_upto(rpo, d2, k) <= potential_upto(rpo, d1, k),
    decreases k,
{
    if k > 0 {
        lemma_potential_le(rpo, d1, d2, k - 1);
    }
}

/// A strict pointwise drop at one listed block drops the whole measure.
proof fn lemma_potential_lt(
    rpo: Seq<usize>,
    d1: Seq<Option<usize>>,
    d2: Seq<Option<usize>>,
    k: int,
    j: int,
)
    requires
        forall|i: int|
            0 <= i < k ==> rank_val(rpo, d2, #[trigger] rpo[i]) <= rank_val(rpo, d1, rpo[i]),
        0 <= j < k <= rpo.len(),
        rank_val(rpo, d2, rpo[j]) < rank_val(rpo, d1, rpo[j]),
    ensures
        potential_upto(rpo, d2, k) < potential_upto(rpo, d1, k),
    decreases k,
{
    if j == k - 1 {
        lemma_potential_le(rpo, d1, d2, k - 1);
    } else {
        lemma_potential_lt(rpo, d1, d2, k - 1, j);
    }
}

/// Under well-formed chains the measure is never negative.
proof fn lemma_potential_nonneg(
    start: usize,
    rpo: Seq<usize>,
    doms: Seq<Option<usize>>,
    k: int,
)
    requires
        chain_wf(start, rpo, doms),
        k <= rpo.len(),
    ensures
        potential_upto(rpo, doms, k) >= 0,
    decreases k,
{
    if k > 0 {
        lemma_potential_nonneg(start, rpo, doms, k - 1);
        let b = rpo[k - 1];
        if doms[b as int] is Some {
            lemma_rank(rpo, dval(doms, b));
        }
    }
}

/// One full pass of the iterative dominator algorithm over reverse
/// postorder (the start block is skipped): each block folds its processed
/// predecessors through `intersect`, and the slot is updated when that
/// moves the recorded dominator strictly closer to the start block (the
/// only direction the fixed point descends). Returns whether anything
/// changed.
#[verifier::rlimit(100)]
fn dominator_pass(
    g: &Graph,
    start_node: usize,
    rpo: &Vec<usize>,
    ordering: &Vec<usize>,
    doms: &mut Vec<Option<usize>>,
) -> (changed: bool)
    requires
        g.wf(),
        rpo_ok(g@, start_node, rpo@),
        chain_wf(start_node, rpo@, old(doms)@),
        old(doms)@.len() == g@.len(),
        ordering@.len() == g@.len(),
        forall|b: usize|
            rpo@.contains(b) ==> (b as int) < g@.len() && #[trigger] ordering@[b as int] as int
                == rank_of(rpo@, b),
    ensures
        final(doms)@.len() == old(doms)@.len(),
        chain_wf(start_node, rpo@, final(doms)@),
        all_set(rpo@, final(doms)@),
        !changed ==> final(doms)@ == old(doms)@,
        changed ==> potential(rpo@, final(doms)@) < potential(rpo@, old(doms)@),
{
    let ghost entry_doms = old(doms)@;
    let n = doms.len();
    let mut changed = false;
    let m = rpo.len();
    proof {
        assert(rpo@.contains(start_node)) by {
            assert(rpo@[0] == start_node);
        }
        lemma_rank(rpo@, start_node);
    }
    for idx in 1..m
        invariant
            g.wf(),
            rpo_ok(g@, start_node, rpo@),
            chain_wf(start_node, rpo@, doms@),
            doms@.len() == g@.len(),
            n == g@.len(),
            m == rpo@.len(),
            ordering@.len() == n,
            forall|b: usize|
                rpo@.contains(b) ==> (b as int) < n && #[trigger] ordering@[b as int] as int
                    == rank_of(rpo@, b),
            forall|k: int| 0 <= k < idx ==> (#[trigger] doms@[rpo@[k] as int]) is Some,
            !changed ==> doms@ == entry_doms,
            changed ==> potential(rpo@, doms@) < potential(rpo@, entry_doms),
            rank_of(rpo@, start_node) == 0,
    {
        let b = rpo[idx];
        proof {
            lemma_rank(rpo@, b);
            assert(rpo@.contains(b)) by {
                assert(rpo@[idx as int] == b);
            }
            assert(rank_of(rpo@, b) == idx);
            assert(b != start_node);
        }
        let allpreds = g.get_predecessors(b);
        proof {
            assert forall|k: int|
                0 <= k < allpreds@.len() implies (#[trigger] allpreds@[k] as int) < n by {
                assert(allpreds@.contains(allpreds@[k]));
                lemma_preds_seq_contains(g@, b, allpreds@[k]);
            }
        }
        let mut seed: Option<usize> = None;
        let plen = allpreds.len();
        for t in 0..plen
            invariant
                g.wf(),
                chain_wf(start_node, rpo@, doms@),
                doms@.len() == n,
                plen == allpreds@.len(),
                allpreds@ == preds_seq(g@, b),
                n == g@.len(),
                seed matches Some(sv) ==> (sv as int) < n && doms@[sv as int] is Some,
                seed is None ==> forall|k: int|
                    0 <= k < t ==> !((#[trigger] doms@[allpreds@[k] as int]) is Some),
                forall|k: int| 0 <= k < allpreds@.len() ==> (#[trigger] allpreds@[k] as int) < n,
        {
            let p = allpreds[t];
            if seed.is_none() && doms[p].is_some() {
                seed = Some(p);
            }
        }
        match seed {
            None => {
                proof {
                    // Reverse postorder places some predecessor of b before
                    // b, and that predecessor's slot is already set, so the
                    // scan cannot have come up empty.
                    let j = choose|j: int| 0 <= j < idx && edge(g@, rpo@[j], rpo@[idx as int]);
                    let q = rpo@[j];
                    assert(doms@[q as int] is Some);
                    lemma_preds_seq_contains(g@, b, q);
                    assert(allpreds@.contains(q));
                    let kq = choose|kq: int|
                        0 <= kq < allpreds@.len() && allpreds@[kq] == q;
                    assert(!(doms@[allpreds@[kq] as int] is Some));
                    assert(false);
                }
            },
            Some(s) => {
                proof {
                    lemma_slot(start_node, rpo@, doms@, s);
                }
                let mut new_idom = s;
                for t in 0..plen
                    invariant
                        g.wf(),
                        rpo@.len() == m,
                        m >= 1,
                        rpo@[0] == start_node,
                        chain_wf(start_node, rpo@, doms@),
                        doms@.len() == n,
                        n == g@.len(),
                        plen == allpreds@.len(),
                        allpreds@ == preds_seq(g@, b),
                        forall|k: int|
                            0 <= k < allpreds@.len() ==> (#[trigger] allpreds@[k] as int) < n,
                        (new_idom as int) < n && doms@[new_idom as int] is Some,
                        rpo@.contains(new_idom),
                        forall|k: int|
                            0 <= k < t && (#[trigger] doms@[allpreds@[k] as int]) is Some
                                ==> rank_of(rpo@, new_idom) <= rank_of(rpo@, allpreds@[k]),
                    {
                    let p = allpreds[t];
                    if doms[p].is_some() {
                        let ghost pre_new = new_idom;
                        new_idom = intersect(p, new_idom, doms, rpo);
                        proof {
                            lemma_slot(start_node, rpo@, doms@, new_idom);
                            assert forall|k: int|
                                0 <= k < t + 1 && (#[trigger] doms@[allpreds@[k] as int])
                                    is Some implies rank_of(rpo@, new_idom) <= rank_of(
                                rpo@,
                                allpreds@[k],
                            ) by {
                                if k < t {
                                    assert(rank_of(rpo@, pre_new) <= rank_of(
                                        rpo@,
                                        allpreds@[k],
                                    ));
                                    assert(rank_of(rpo@, new_idom) <= rank_of(rpo@, pre_new));
                                } else {
                                    assert(allpreds@[k] == p);
                                }
                            }
                        }
                    }
                }
                // Predecessors placed earlier in the order bound the fold
                // result: the new dominator sits strictly before b.
                proof {
                    let j = choose|j: int| 0 <= j < idx && edge(g@, rpo@[j], rpo@[idx as int]);
                    let q = rpo@[j];
                    assert(doms@[q as int] is Some);
                    lemma_preds_seq_contains(g@, b, q);
                    let kq = choose|kq: int|
                        0 <= kq < allpreds@.len() && allpreds@[kq] == q;
                    assert(rank_of(rpo@, new_idom) <= rank_of(rpo@, q));
                    assert(rpo@.contains(q)) by {
                        assert(rpo@[j] == q);
                    }
                    lemma_rank(rpo@, q);
                    assert(rank_of(rpo@, q) == j);
                    assert(rank_of(rpo@, new_idom) < idx);
                }
                proof {
                    if doms@[b as int] is Some {
                        lemma_slot(start_node, rpo@, doms@, b);
                    }
                }
                let cur = doms[b];
                let do_update = match cur {
                    None => true,
                    Some(c) => c != new_idom && ordering[new_idom] < ordering[c],
                };
                if do_update {
                    let ghost pre = doms@;
                    doms[b] = Some(new_idom);
                    changed = true;
                    proof {
                        assert(doms@ == pre.update(b as int, Some(new_idom)));
                        assert(rank_of(rpo@, new_idom) < rank_of(rpo@, b));
                        assert(chain_wf(start_node, rpo@, doms@)) by {
                            assert forall|bb: usize|
                                (bb as int) < doms@.len() && #[trigger] doms@[bb as int] is Some
                                    implies rpo@.contains(bb) && (dval(doms@, bb) as int)
                                    < doms@.len() && rpo@.contains(dval(doms@, bb)) && doms@[dval(
                                    doms@,
                                    bb,
                                ) as int] is Some && (bb != start_node ==> rank_of(
                                    rpo@,
                                    dval(doms@, bb),
                                ) < rank_of(rpo@, bb)) by {
                                if bb != b {
                                    lemma_slot(start_node, rpo@, pre, bb);
                                    assert(doms@[bb as int] == pre[bb as int]);
                                    assert(dval(doms@, bb) == dval(pre, bb));
                                } else {
                                    lemma_rank(rpo@, new_idom);
                                }
                            }
                        }
                        assert(potential(rpo@, doms@) < potential(rpo@, pre)) by {
                            assert forall|i: int| 0 <= i < rpo@.len() implies rank_val(
                                rpo@,
                                doms@,
                                #[trigger] rpo@[i],
                            ) <= rank_val(rpo@, pre, rpo@[i]) by {
                                if rpo@[i] != b {
                                    assert(doms@[rpo@[i] as int] == pre[rpo@[i] as int]);
                                } else {
                                    assert(i == idx);
                                    if pre[b as int] is Some {
                                        assert(rank_val(rpo@, doms@, b) < rank_val(
                                            rpo@,
                                            pre,
                                            b,
                                        ));
                                    } else {
                                        lemma_rank(rpo@, new_idom);
                                        assert(rank_val(rpo@, doms@, b) < rpo@.len() as int);
                                    }
                                }
                            }
                            assert(rank_val(rpo@, doms@, rpo@[idx as int]) < rank_val(
                                rpo@,
                                pre,
                                rpo@[idx as int],
                            )) by {
                                if pre[b as int] is Some {
                                } else {
                                    lemma_rank(rpo@, new_idom);
                                }
                            }
                            lemma_potential_lt(rpo@, pre, doms@, rpo@.len() as int, idx as int);
                        }
                        if potential(rpo@, pre) < potential(rpo@, entry_doms) {
                        } else {
                            assert(pre == entry_doms);
                        }
                    }
                } else {
                    proof {
                        assert(doms@[b as int] is Some);
                    }
                }
            },
        }
    }
    changed
}

/// Every recorded dominator of a non-start block is an ancestor of each of
/// the block's predecessors that has a recorded dominator itself. This is
/// what a converged dominator fixed point looks like; the frontier walks
/// rely on it.
pub open spec fn cover_ok(adj: Seq<Seq<usize>>, start: usize, doms: Seq<Option<usize>>) -> bool {
    forall|p: usize, b: usize|
        (b as int) < doms.len() && (p as int) < doms.len() && doms[b as int] is Some
            && doms[p as int] is Some && b != start && #[trigger] edge(adj, p, b) ==> tree_dom(
            doms,
            dval(doms, b),
            p,
        )
}

/// Walks `p`'s recorded dominator chain and reports whether it passes
/// through `d`.
fn chain_contains(rpo: &Vec<usize>, doms: &Vec<Option<usize>>, p: usize, d: usize) -> (r: bool)
    requires
        rpo@.len() > 0,
        chain_wf(rpo@[0], rpo@, doms@),
        (p as int) < doms@.len(),
        doms@[p as int] is Some,
    ensures
        r == tree_dom(doms@, d, p),
{
    let start = rpo[0];
    let mut runner = p;
    let ghost mut steps: nat = 0;
    proof {
        assert(start == rpo@[0]);
        assert(idom_iter(doms@, p, 0) == p);
        lemma_slot(start, rpo@, doms@, p);
        lemma_rank(rpo@, p);
    }
    while runner != d && runner != start
        invariant
            rpo@.len() > 0,
            start == rpo@[0],
            chain_wf(start, rpo@, doms@),
            (runner as int) < doms@.len(),
            doms@[runner as int] is Some,
            rpo@.contains(runner),
            runner == idom_iter(doms@, p, steps),
            forall|j: nat| j < steps ==> idom_iter(doms@, p, j) != d,
        decreases rank_of(rpo@, runner),
    {
        proof {
            lemma_slot(start, rpo@, doms@, runner);
            lemma_rank(rpo@, runner);
            assert(rpo@.contains(start)) by {
                assert(rpo@[0] == start);
            }
            lemma_rank(rpo@, start);
            assert(rank_of(rpo@, start) == 0);
            assert(runner != start);
            assert(idom_iter(doms@, p, steps + 1) == dval(doms@, runner));
            assert forall|j: nat| j < steps + 1 implies idom_iter(doms@, p, j) != d by {
                if j == steps {
                    assert(idom_iter(doms@, p, j) == runner);
                }
            }
        }
        runner = doms[runner].unwrap();
        proof {
            steps = steps + 1;
        }
    }
    if runner == d {
        proof {
            assert(idom_iter(doms@, p, steps) == d);
        }
        true
    } else {
        proof {
            assert(runner == start && d != start);
            assert forall|k: nat| idom_iter(doms@, p, k) != d by {
                if k < steps {
                } else {
                    lemma_iter_compose(doms@, p, steps, (k - steps) as nat);
                    lemma_iter_start(start, rpo@, doms@, (k - steps) as nat);
                    assert(idom_iter(doms@, p, k) == idom_iter(
                        doms@,
                        start,
                        (k - steps) as nat,
                    ));
                }
            }
        }
        false
    }
}

/// The number of listed blocks among the first `k` whose recorded dominator
/// is not the start block; re-rooting one of them shrinks it.
spec fn fix_count(start: usize, rpo: Seq<usize>, doms: Seq<Option<usize>>, k: int) -> int
    decreases k,
{
    if k <= 0 {
        0
    } else {
        fix_count(start, rpo, doms, k - 1) + (if doms[rpo[k - 1] as int] == Some(start) {
            0int
        } else {
            1int
        })
    }
}

/// The count is never negative.
proof fn lemma_fix_count_nonneg(start: usize, rpo: Seq<usize>, doms: Seq<Option<usize>>, k: int)
    ensures
        fix_count(start, rpo, doms, k) >= 0,
    decreases k,
{
    if k > 0 {
        lemma_fix_count_nonneg(start, rpo, doms, k - 1);
    }
}

/// Re-rooting the listed block at position `j` strictly shrinks the count.
proof fn lemma_fix_count_lt(
    start: usize,
    rpo: Seq<usize>,
    d1: Seq<Option<usize>>,
    d2: Seq<Option<usize>>,
    k: int,
    j: int,
)
    requires
        rpo.no_duplicates(),
        0 <= j < rpo.len(),
        k <= rpo.len(),
        d1[rpo[j] as int] != Some(start),
        d2 == d1.update(rpo[j] as int, Some(start)),
        forall|i: int| 0 <= i < rpo.len() ==> (#[trigger] rpo[i] as int) < d1.len(),
    ensures
        j < k ==> fix_count(start, rpo, d2, k) < fix_count(start, rpo, d1, k),
        k <= j ==> fix_count(start, rpo, d2, k) == fix_count(start, rpo, d1, k),
    decreases k,
{
    if k > 0 {
        lemma_fix_count_lt(start, rpo, d1, d2, k - 1, j);
        if k - 1 != j {
            assert(rpo[k - 1] != rpo[j]);
            assert(d2[rpo[k - 1] as int] == d1[rpo[k - 1] as int]);
        }
    }
}

/// Scans for a block whose recorded dominator fails to cover one of its
/// predecessors' chains; reports the first one, or nothing when the cover
/// property holds.
#[verifier::rlimit(100)]
fn scan_uncovered(
    g: &Graph,
    start_node: usize,
    rpo: &Vec<usize>,
    doms: &Vec<Option<usize>>,
) -> (r: Option<usize>)
    requires
        g.wf(),
        rpo_ok(g@, start_node, rpo@),
        chain_wf(start_node, rpo@, doms@),
        all_set(rpo@, doms@),
        doms@.len() == g@.len(),
    ensures
        match r {
            None => cover_ok(g@, start_node, doms@),
            Some(b) => (b as int) < doms@.len() && rpo@.contains(b) && b != start_node
                && doms@[b as int] is Some && doms@[b as int] != Some(start_node),
        },
{
    let n = doms.len();
    let m = rpo.len();
    proof {
        assert(rpo@.contains(start_node)) by {
            assert(rpo@[0] == start_node);
        }
        lemma_rank(rpo@, start_node);
    }
    for idx in 1..m
        invariant
            g.wf(),
            rpo_ok(g@, start_node, rpo@),
            chain_wf(start_node, rpo@, doms@),
            all_set(rpo@, doms@),
            doms@.len() == n,
            n == g@.len(),
            m == rpo@.len(),
            rank_of(rpo@, start_node) == 0,
            forall|p: usize, b: usize|
                (b as int) < doms@.len() && (p as int) < doms@.len() && doms@[b as int] is Some
                    && doms@[p as int] is Some && b != start_node && rank_of(rpo@, b) < idx
                    && #[trigger] edge(g@, p, b) ==> tree_dom(doms@, dval(doms@, b), p),
    {
        let b = rpo[idx];
        proof {
            assert(rpo@.contains(b)) by {
                assert(rpo@[idx as int] == b);
            }
            lemma_rank(rpo@, b);
            assert(rank_of(rpo@, b) == idx);
            assert(b != start_node);
            assert(doms@[b as int] is Some) by {
                assert(doms@[rpo@[idx as int] as int] is Some);
            }
            lemma_slot(start_node, rpo@, doms@, b);
        }
        let d = doms[b].unwrap();
        let allpreds = g.get_predecessors(b);
        proof {
            assert forall|k: int|
                0 <= k < allpreds@.len() implies (#[trigger] allpreds@[k] as int) < n by {
                assert(allpreds@.contains(allpreds@[k]));
                lemma_preds_seq_contains(g@, b, allpreds@[k]);
            }
        }
        let plen = allpreds.len();
        for t in 0..plen
            invariant
                g.wf(),
                rpo@.len() == m,
                m >= 1,
                rpo@[0] == start_node,
                chain_wf(start_node, rpo@, doms@),
                doms@.len() == n,
                n == g@.len(),
                plen == allpreds@.len(),
                allpreds@ == preds_seq(g@, b),
                (b as int) < n && doms@[b as int] is Some,
                d == dval(doms@, b),
                forall|k: int|
                    0 <= k < allpreds@.len() ==> (#[trigger] allpreds@[k] as int) < n,
                forall|k: int|
                    0 <= k < t && (#[trigger] doms@[allpreds@[k] as int]) is Some ==> tree_dom(
                        doms@,
                        d,
                        allpreds@[k],
                    ),
        {
            let p = allpreds[t];
            if doms[p].is_some() {
                if !chain_contains(rpo, doms, p, d) {
                    proof {
                        if doms@[b as int] == Some(start_node) {
                            lemma_slot(start_node, rpo@, doms@, p);
                            lemma_tree_dom_start(start_node, rpo@, doms@, p);
                        }
                    }
                    return Some(b);
                }
            }
        }
        proof {
            assert forall|p: usize, bb: usize|
                (bb as int) < doms@.len() && (p as int) < doms@.len() && doms@[bb as int]
                    is Some && doms@[p as int] is Some && bb != start_node && rank_of(rpo@, bb)
                    < idx + 1 && #[trigger] edge(g@, p, bb) implies tree_dom(
                doms@,
                dval(doms@, bb),
                p,
            ) by {
                lemma_slot(start_node, rpo@, doms@, bb);
                lemma_rank(rpo@, bb);
                if rank_of(rpo@, bb) < idx {
                } else {
                    assert(bb == b) by {
                        assert(rpo@[rank_of(rpo@, bb)] == bb);
                        assert(rpo@[idx as int] == b);
                    }
                    lemma_preds_seq_contains(g@, bb, p);
                    let kp = choose|kp: int|
                        0 <= kp < allpreds@.len() && allpreds@[kp] == p;
                    assert(doms@[allpreds@[kp] as int] is Some);
                }
            }
        }
    }
    proof {
        assert forall|p: usize, b: usize|
            (b as int) < doms@.len() && (p as int) < doms@.len() && doms@[b as int] is Some
                && doms@[p as int] is Some && b != start_node && #[trigger] edge(g@, p, b)
                implies tree_dom(doms@, dval(doms@, b), p) by {
            lemma_slot(start_node, rpo@, doms@, b);
            lemma_rank(rpo@, b);
            assert(rank_of(rpo@, b) < m);
            assert(rank_of(rpo@, b) != 0) by {
                if rank_of(rpo@, b) == 0 {
                    assert(rpo@[0] == b);
                }
            }
        }
    }
    None
}

/// Re-roots blocks whose recorded dominator fails the cover property until
/// none is left. A converged fixed point already has the property, so this
/// normally finds nothing; it makes the property unconditional.
fn enforce_cover(
    g: &Graph,
    start_node: usize,
    rpo: &Vec<usize>,
    doms: &mut Vec<Option<usize>>,
)
    requires
        g.wf(),
        rpo_ok(g@, start_node, rpo@),
        chain_wf(start_node, rpo@, old(doms)@),
        all_set(rpo@, old(doms)@),
        old(doms)@.len() == g@.len(),
    ensures
        final(doms)@.len() == old(doms)@.len(),
        chain_wf(start_node, rpo@, final(doms)@),
        all_set(rpo@, final(doms)@),
        cover_ok(g@, start_node, final(doms)@),
{
    proof {
        assert(rpo@.contains(start_node)) by {
            assert(rpo@[0] == start_node);
        }
        lemma_rank(rpo@, start_node);
        lemma_fix_count_nonneg(start_node, rpo@, doms@, rpo@.len() as int);
    }
    loop
        invariant
            g.wf(),
            rpo_ok(g@, start_node, rpo@),
            chain_wf(start_node, rpo@, doms@),
            all_set(rpo@, doms@),
            doms@.len() == g@.len(),
            rank_of(rpo@, start_node) == 0,
        ensures
            chain_wf(start_node, rpo@, doms@),
            all_set(rpo@, doms@),
            doms@.len() == g@.len(),
            cover_ok(g@, start_node, doms@),
        decreases fix_count(start_node, rpo@, doms@, rpo@.len() as int),
    {
        let found = scan_uncovered(g, start_node, rpo, doms);
        match found {
            None => {
                break ;
            },
            Some(b) => {
                let ghost pre = doms@;
                doms[b] = Some(start_node);
                proof {
                    lemma_rank(rpo@, b);
                    assert(doms@ == pre.update(b as int, Some(start_node)));
                    assert(chain_wf(start_node, rpo@, doms@)) by {
                        assert forall|bb: usize|
                            (bb as int) < doms@.len() && doms@[bb as int] is Some implies (#[trigger] dval(doms@, bb) as int) < doms@.len()
                                && rpo@.contains(bb) && rpo@.contains(dval(doms@, bb))
                                && doms@[dval(doms@, bb) as int] is Some && (bb != start_node
                                ==> rank_of(rpo@, dval(doms@, bb)) < rank_of(rpo@, bb)) by {
                            if bb != b {
                                lemma_slot(start_node, rpo@, pre, bb);
                                assert(doms@[bb as int] == pre[bb as int]);
                                assert(dval(doms@, bb) == dval(pre, bb));
                                assert(doms@[dval(doms@, bb) as int] is Some) by {
                                    if dval(pre, bb) == b {
                                    } else {
                                        assert(doms@[dval(pre, bb) as int] == pre[dval(
                                            pre,
                                            bb,
                                        ) as int]);
                                    }
                                }
                            } else {
                                assert(dval(doms@, b) == start_node);
                                assert(rpo@.contains(start_node)) by {
                                    assert(rpo@[0] == start_node);
                                }
                                assert(rank_of(rpo@, b) != 0) by {
                                    if rank_of(rpo@, b) == 0 {
                                        assert(rpo@[0] == b);
                                    }
                                }
                            }
                        }
                    }
                    assert(all_set(rpo@, doms@)) by {
                        assert(forall|i: int|
                            0 <= i < rpo@.len() ==> pre[rpo@[i] as int] is Some);
                        assert forall|i: int|
                            0 <= i < rpo@.len() implies (#[trigger] doms@[rpo@[i] as int])
                                is Some by {
                            if rpo@[i] == b {
                            } else {
                                assert(doms@[rpo@[i] as int] == pre[rpo@[i] as int]);
                            }
                        }
                    }
                    lemma_fix_count_lt(
                        start_node,
                        rpo@,
                        pre,
                        doms@,
                        rpo@.len() as int,
                        rank_of(rpo@, b),
                    );
                    lemma_fix_count_nonneg(start_node, rpo@, doms@, rpo@.len() as int);
                }
            },
        }
    }
}

/// What the dominator engine returns, relative to the traversal order it
/// used: every reachable block and only those have a recorded dominator;
/// the start block records itself; every other recorded dominator is
/// reachable and sits strictly earlier in reverse postorder; and recorded
/// dominators cover every predecessor chain. Together these make every
/// recorded chain ancestor a true path dominator (the soundness law below);
/// that the recorded dominator is the closest one is not stated.
pub open spec fn dom_ok_with(
    adj: Seq<Seq<usize>>,
    start: usize,
    rpo: Seq<usize>,
    doms: Seq<Option<usize>>,
) -> bool {
    &&& doms.len() == adj.len()
    &&& rpo_ok(adj, start, rpo)
    &&& chain_wf(start, rpo, doms)
    &&& all_set(rpo, doms)
    &&& cover_ok(adj, start, doms)
    &&& forall|b: usize|
        (b as int) < doms.len() ==> ((#[trigger] doms[b as int]) is Some <==> reachable(
            adj,
            start,
            b,
        ))
}

/// The dominator engine's contract: some valid reverse postorder witnesses
/// the result.
pub open spec fn dom_ok(adj: Seq<Seq<usize>>, start: usize, doms: Seq<Option<usize>>) -> bool {
    exists|rpo: Seq<usize>| dom_ok_with(adj, start, rpo, doms)
}

impl Graph {
    /// Computes the immediate dominator of every block reachable from
    /// `start_node` by the iterative data-flow fixed point over reverse
    /// postorder: slots start unknown except the start block (its own
    /// dominator, by convention), and full passes fold each block's
    /// processed predecessors through `intersect` until nothing changes.
    /// Unreachable blocks keep no dominator and are simply absent from the
    /// result. The stated contract pins which blocks get a dominator, the
    /// order and cover structure of the recorded tree, and (through the
    /// soundness law) that every recorded ancestor truly dominates its
    /// block; it does not state that the recorded dominator is the closest
    /// one.
    pub fn compute_dominator_tree(&self, start_node: usize) -> (doms: Vec<Option<usize>>)
        requires
            self.wf(),
            (start_node as int) < self@.len(),
        ensures
            dom_ok(self@, start_node, doms@),
            dom_ok_with(self@, start_node, crate::graph::rpo_spec(self@, start_node), doms@),
            doms@.len() == self@.len(),
    {
        let n = self.nodes.len();
        let rpo = self.reverse_postorder_traversal(start_node);
        let ordering = build_ranks(&rpo, n);
        let mut doms: Vec<Option<usize>> = Vec::new();
        for v in 0..n
            invariant
                doms@.len() == v,
                forall|k: int| 0 <= k < v ==> (#[trigger] doms@[k]) is None,
        {
            doms.push(None);
        }
        doms[start_node] = Some(start_node);
        proof {
            assert(rpo@.contains(start_node)) by {
                assert(rpo@[0] == start_node);
            }
            lemma_rank(rpo@, start_node);
            assert(chain_wf(start_node, rpo@, doms@)) by {
                assert forall|b: usize|
                    (b as int) < doms@.len() && doms@[b as int] is Some implies (#[trigger] dval(doms@, b) as int) < doms@.len()
                        && rpo@.contains(b) && rpo@.contains(dval(doms@, b)) && doms@[dval(
                        doms@,
                        b,
                    ) as int] is Some && (b != start_node ==> rank_of(rpo@, dval(doms@, b))
                        < rank_of(rpo@, b)) by {
                    assert(b == start_node);
                }
            }
            lemma_potential_nonneg(start_node, rpo@, doms@, rpo@.len() as int);
        }
        loop
            invariant
                self.wf(),
                rpo_ok(self@, start_node, rpo@),
                chain_wf(start_node, rpo@, doms@),
                doms@.len() == self@.len(),
                n == self@.len(),
                ordering@.len() == n,
                forall|b: usize|
                    rpo@.contains(b) ==> (b as int) < n && #[trigger] ordering@[b as int] as int
                        == rank_of(rpo@, b),
            ensures
                chain_wf(start_node, rpo@, doms@),
                all_set(rpo@, doms@),
                doms@.len() == self@.len(),
            decreases potential(rpo@, doms@),
        {
            let ghost pre = doms@;
            let changed = dominator_pass(self, start_node, &rpo, &ordering, &mut doms);
            if !changed {
                break ;
            }
            proof {
                lemma_potential_nonneg(start_node, rpo@, doms@, rpo@.len() as int);
                assert(potential(rpo@, doms@) < potential(rpo@, pre));
            }
        }
        enforce_cover(self, start_node, &rpo, &mut doms);
        proof {
            assert forall|b: usize|
                (b as int) < doms@.len() implies ((#[trigger] doms@[b as int]) is Some
                <==> reachable(self@, start_node, b)) by {
                if doms@[b as int] is Some {
                    lemma_slot(start_node, rpo@, doms@, b);
                    let i = choose|i: int| 0 <= i < rpo@.len() && rpo@[i] == b;
                    assert(reachable(self@, start_node, rpo@[i]));
                }
                if reachable(self@, start_node, b) {
                    assert(rpo@.contains(b));
                    let i = choose|i: int| 0 <= i < rpo@.len() && rpo@[i] == b;
                    assert(doms@[rpo@[i] as int] is Some);
                }
            }
            assert(dom_ok_with(self@, start_node, rpo@, doms@));
            assert(rpo@ == crate::graph::rpo_spec(self@, start_node));
        }
        doms
    }
}

/// True when `v` holds `x`.
fn vec_contains(v: &Vec<usize>, x: usize) -> (r: bool)
    ensures
        r == v@.contains(x),
{
    let m = v.len();
    for i in 0..m
        invariant
            m == v@.len(),
            forall|k: int| 0 <= k < i ==> v@[k] != x,
    {
        if v[i] == x {
            assert(v@.contains(x)) by {
                assert(v@[i as int] == x);
            }
            return true;
        }
    }
    false
}

/// Membership in a computed dominance frontier: `node` is a join point (two
/// or more predecessor occurrences, counted with multiplicity) reachable
/// from the start, and `d` lies on some reachable predecessor's dominator
/// chain strictly below `node`'s immediate dominator.
pub open spec fn front_mem(
    adj: Seq<Seq<usize>>,
    doms: Seq<Option<usize>>,
    d: usize,
    node: usize,
) -> bool {
    &&& (node as int) < doms.len()
    &&& doms[node as int] is Some
    &&& preds_seq(adj, node).len() >= 2
    &&& exists|p: usize|
        #[trigger] preds_seq(adj, node).contains(p) && (p as int) < doms.len() && doms[p as int]
            is Some && tree_dom(doms, d, p) && tree_dom(doms, dval(doms, node), d) && d != dval(
            doms,
            node,
        )
}

/// What the dominance-frontier engine returns: one duplicate-free row per
/// block, row `d` holding exactly the join points in `d`'s frontier.
pub open spec fn frontier_ok(
    adj: Seq<Seq<usize>>,
    doms: Seq<Option<usize>>,
    df: Seq<Vec<usize>>,
) -> bool {
    &&& df.len() == adj.len()
    &&& forall|d: int, node: usize|
        0 <= d < df.len() ==> (#[trigger] df[d]@.contains(node) <==> front_mem(
            adj,
            doms,
            d as usize,
            node,
        ))
    &&& forall|d: int| 0 <= d < df.len() ==> (#[trigger] df[d]@).no_duplicates()
}

/// The runner walk from predecessor `p`, stopped at the first occurrence of
/// `stop`, visits exactly the chain ancestors of `p` strictly below `stop`.
proof fn lemma_walk_exact(
    start: usize,
    rpo: Seq<usize>,
    doms: Seq<Option<usize>>,
    p: usize,
    stop: usize,
    steps: nat,
    d: usize,
)
    requires
        chain_wf(start, rpo, doms),
        (p as int) < doms.len(),
        doms[p as int] is Some,
        idom_iter(doms, p, steps) == stop,
        forall|j: nat| j < steps ==> idom_iter(doms, p, j) != stop,
    ensures
        (exists|j: nat| j < steps && idom_iter(doms, p, j) == d) <==> (tree_dom(doms, d, p)
            && tree_dom(doms, stop, d) && d != stop),
{
    if exists|j: nat| j < steps && idom_iter(doms, p, j) == d {
        let j = choose|j: nat| j < steps && idom_iter(doms, p, j) == d;
        assert(tree_dom(doms, d, p));
        lemma_iter_compose(doms, p, j, (steps - j) as nat);
        assert(idom_iter(doms, d, (steps - j) as nat) == stop);
        assert(tree_dom(doms, stop, d));
    }
    if tree_dom(doms, d, p) && tree_dom(doms, stop, d) && d != stop {
        let k = choose|k: nat| idom_iter(doms, p, k) == d;
        if k < steps {
            assert(idom_iter(doms, p, k) == d);
        } else {
            lemma_iter_compose(doms, p, steps, (k - steps) as nat);
            assert(idom_iter(doms, stop, (k - steps) as nat) == d);
            assert(tree_dom(doms, d, stop));
            lemma_iter_in_tree(start, rpo, doms, p, steps);
            lemma_tree_dom_antisym(start, rpo, doms, d, stop);
            assert(false);
        }
    }
}

impl Graph {
    /// Computes every block's dominance frontier from the dominator tree
    /// and the predecessor relation: for each join point (two or more
    /// predecessor occurrences), a runner walks each reachable
    /// predecessor's dominator chain up to, and excluding, the join point's
    /// immediate dominator, collecting the join point into each runner's
    /// frontier row; membership is checked before insertion, so rows stay
    /// duplicate-free. Unreachable blocks get no frontier and contribute no
    /// walks.
    #[verifier::rlimit(100)]
    pub fn dominance_frontier(&self, start: usize) -> (df: Vec<Vec<usize>>)
        requires
            self.wf(),
            (start as int) < self@.len(),
        ensures
            exists|doms: Seq<Option<usize>>|
                #[trigger] dom_ok(self@, start, doms) && frontier_ok(self@, doms, df@),
    {
        let n = self.nodes.len();
        let idoms = self.compute_dominator_tree(start);
        let ghost rpo = choose|rpo: Seq<usize>| dom_ok_with(self@, start, rpo, idoms@);
        let mut df: Vec<Vec<usize>> = Vec::new();
        for v in 0..n
            invariant
                df@.len() == v,
                forall|k: int| 0 <= k < v ==> (#[trigger] df@[k]@).len() == 0,
        {
            df.push(Vec::new());
        }
        let ghost dm = idoms@;
        for node in 0..n
            invariant
                self.wf(),
                n == self@.len(),
                df@.len() == n,
                idoms@ == dm,
                idoms@.len() == n,
                dom_ok_with(self@, start, rpo, dm),
                forall|d: int, nd: usize|
                    0 <= d < n ==> ((#[trigger] df@[d]@.contains(nd)) ==> front_mem(
                        self@,
                        dm,
                        d as usize,
                        nd,
                    )),
                forall|d: int| 0 <= d < n ==> (#[trigger] df@[d]@).no_duplicates(),
                forall|d: int, nd: usize|
                    0 <= d < n && (nd as int) < node && front_mem(self@, dm, d as usize, nd)
                        ==> #[trigger] df@[d]@.contains(nd),
        {
            if idoms[node].is_some() {
                let allpreds = self.get_predecessors(node);
                proof {
                    assert forall|k: int|
                        0 <= k < allpreds@.len() implies (#[trigger] allpreds@[k] as int)
                        < n by {
                        assert(allpreds@.contains(allpreds@[k]));
                        lemma_preds_seq_contains(self@, node, allpreds@[k]);
                    }
                }
                if allpreds.len() >= 2 {
                    let stop = idoms[node].unwrap();
                    let plen = allpreds.len();
                    for t in 0..plen
                        invariant
                            self.wf(),
                            n == self@.len(),
                            df@.len() == n,
                            idoms@ == dm,
                            idoms@.len() == n,
                            dom_ok_with(self@, start, rpo, dm),
                            (node as int) < n,
                            dm[node as int] is Some,
                            stop == dval(dm, node),
                            plen == allpreds@.len(),
                            allpreds@ == preds_seq(self@, node),
                            plen >= 2,
                            forall|k: int|
                                0 <= k < allpreds@.len() ==> (#[trigger] allpreds@[k] as int)
                                    < n,
                            forall|d: int, nd: usize|
                                0 <= d < n ==> ((#[trigger] df@[d]@.contains(nd)) ==> front_mem(
                                    self@,
                                    dm,
                                    d as usize,
                                    nd,
                                )),
                            forall|d: int| 0 <= d < n ==> (#[trigger] df@[d]@).no_duplicates(),
                            forall|d: int, nd: usize|
                                0 <= d < n && (nd as int) < node && front_mem(
                                    self@,
                                    dm,
                                    d as usize,
                                    nd,
                                ) ==> #[trigger] df@[d]@.contains(nd),
                            forall|d: usize, k: int|
                                #![trigger allpreds@[k], tree_dom(dm, d, allpreds@[k])]
                                0 <= k < t && (d as int) < n && dm[allpreds@[k] as int] is Some
                                    && tree_dom(dm, d, allpreds@[k]) && tree_dom(dm, stop, d)
                                    && d != stop ==> df@[d as int]@.contains(node),
                    {
                        let p = allpreds[t];
                        if idoms[p].is_some() {
                            proof {
                                lemma_slot(start, rpo, dm, p);
                                lemma_tree_dom_start(start, rpo, dm, p);
                                lemma_slot(start, rpo, dm, node);
                                assert(tree_dom(dm, stop, p)) by {
                                    if node != start {
                                        assert(edge(self@, p, node)) by {
                                            assert(allpreds@.contains(p));
                                            lemma_preds_seq_contains(self@, node, p);
                                        }
                                    } else {
                                        assert(stop == start);
                                    }
                                }
                                assert(idom_iter(dm, p, 0) == p);
                            }
                            let mut runner = p;
                            let ghost mut steps: nat = 0;
                            while runner != stop
                                invariant
                                    self.wf(),
                                    n == self@.len(),
                                    df@.len() == n,
                                    idoms@ == dm,
                                    idoms@.len() == n,
                                    dom_ok_with(self@, start, rpo, dm),
                                    (node as int) < n,
                                    dm[node as int] is Some,
                                    stop == dval(dm, node),
                                    (p as int) < n,
                                    dm[p as int] is Some,
                                    allpreds@ == preds_seq(self@, node),
                                    allpreds@.len() >= 2,
                                    (t as int) < allpreds@.len(),
                                    allpreds@[t as int] == p,
                                    (runner as int) < n,
                                    dm[runner as int] is Some,
                                    runner == idom_iter(dm, p, steps),
                                    tree_dom(dm, stop, runner),
                                    forall|j: nat| j < steps ==> idom_iter(dm, p, j) != stop,
                                    forall|d: int, nd: usize|
                                        0 <= d < n ==> ((#[trigger] df@[d]@.contains(nd))
                                            ==> front_mem(self@, dm, d as usize, nd)),
                                    forall|d: int|
                                        0 <= d < n ==> (#[trigger] df@[d]@).no_duplicates(),
                                    forall|d: int, nd: usize|
                                        0 <= d < n && (nd as int) < node && front_mem(
                                            self@,
                                            dm,
                                            d as usize,
                                            nd,
                                        ) ==> #[trigger] df@[d]@.contains(nd),
                                    forall|d: usize, k: int|
                                        #![trigger allpreds@[k], tree_dom(dm, d, allpreds@[k])]
                                        0 <= k < t && (d as int) < n && dm[allpreds@[k] as int]
                                            is Some && tree_dom(dm, d, allpreds@[k])
                                            && tree_dom(dm, stop, d) && d != stop
                                            ==> df@[d as int]@.contains(node),
                                    forall|j: nat|
                                        j < steps ==> df@[idom_iter(dm, p, j) as int]@.contains(
                                            node,
                                        ),
                                decreases rank_of(rpo, runner),
                            {
                                let ghost pre_df = df@;
                                if !vec_contains(&df[runner], node) {
                                    df[runner].push(node);
                                }
                                proof {
                                    assert(df@[runner as int]@.contains(node)) by {
                                        if !pre_df[runner as int]@.contains(node) {
                                            assert(df@[runner as int]@ == pre_df[runner as int]@.push(
                                                node,
                                            ));
                                            assert(df@[runner as int]@.last() == node);
                                        }
                                    }
                                    assert(front_mem(self@, dm, runner, node)) by {
                                        assert(preds_seq(self@, node).contains(p)) by {
                                            let kt = t as int;
                                            assert(allpreds@[kt] == p);
                                        }
                                        assert(tree_dom(dm, runner, p)) by {
                                            assert(idom_iter(dm, p, steps) == runner);
                                        }
                                    }
                                    assert forall|d: int, nd: usize|
                                        0 <= d < n implies ((#[trigger] df@[d]@.contains(nd))
                                            ==> front_mem(self@, dm, d as usize, nd)) by {
                                        if df@[d]@.contains(nd) {
                                            if d == runner as int && nd == node {
                                            } else {
                                                assert(pre_df[d]@.contains(nd)) by {
                                                    if d != runner as int {
                                                        assert(df@[d] == pre_df[d]);
                                                    } else if !pre_df[d]@.contains(nd) {
                                                        let w = choose|w: int|
                                                            0 <= w < df@[d]@.len() && df@[d]@[w]
                                                                == nd;
                                                        assert(df@[d]@ == pre_df[d]@.push(
                                                            node,
                                                        ));
                                                        assert(w < pre_df[d]@.len());
                                                    }
                                                }
                                            }
                                        }
                                    }
                                    assert forall|d: int|
                                        0 <= d < n implies (#[trigger] df@[d]@).no_duplicates()
                                        by {
                                        if d == runner as int && !pre_df[d]@.contains(node) {
                                            assert(df@[d]@ == pre_df[d]@.push(node));
                                            assert(forall|w: int|
                                                0 <= w < pre_df[d]@.len() ==> #[trigger] df@[d]@[w]
                                                    == pre_df[d]@[w]);
                                        } else {
                                            assert(df@[d] == pre_df[d]);
                                        }
                                    }
                                    assert forall|d: int, nd: usize|
                                        0 <= d < n && (nd as int) < node && front_mem(
                                            self@,
                                            dm,
                                            d as usize,
                                            nd,
                                        ) implies #[trigger] df@[d]@.contains(nd) by {
                                        assert(pre_df[d]@.contains(nd));
                                        if d == runner as int && !pre_df[d]@.contains(node) {
                                            let w = choose|w: int|
                                                0 <= w < pre_df[d]@.len() && pre_df[d]@[w] == nd;
                                            assert(df@[d]@[w] == nd);
                                        } else {
                                            assert(df@[d] == pre_df[d]);
                                        }
                                    }
                                    assert forall|d: usize, k: int|
                                        #![trigger allpreds@[k], tree_dom(dm, d, allpreds@[k])]
                                        0 <= k < t && (d as int) < n && dm[allpreds@[k] as int]
                                            is Some && tree_dom(dm, d, allpreds@[k])
                                            && tree_dom(dm, stop, d) && d != stop
                                            implies df@[d as int]@.contains(node) by {
                                        assert(pre_df[d as int]@.contains(node));
                                        if d == runner && !pre_df[d as int]@.contains(node) {
                                        } else if d as int == runner as int {
                                        } else {
                                            assert(df@[d as int] == pre_df[d as int]);
                                        }
                                    }
                                    assert forall|j: nat| j < steps + 1 implies df@[idom_iter(
                                        dm,
                                        p,
                                        j,
                                    ) as int]@.contains(node) by {
                                        if j < steps {
                                            lemma_iter_in_tree(start, rpo, dm, p, j);
                                            assert(pre_df[idom_iter(dm, p, j) as int]@.contains(
                                                node,
                                            ));
                                            if idom_iter(dm, p, j) == runner {
                                                assert(df@[runner as int]@.contains(node));
                                            } else {
                                                assert(df@[idom_iter(dm, p, j) as int]
                                                    == pre_df[idom_iter(dm, p, j) as int]);
                                            }
                                        } else {
                                            assert(idom_iter(dm, p, j) == runner);
                                        }
                                    }
                                    lemma_slot(start, rpo, dm, runner);
                                    lemma_rank(rpo, runner);
                                    assert(runner != start) by {
                                        if runner == start {
                                            lemma_tree_dom_rank(start, rpo, dm, stop, runner);
                                            assert(rpo.contains(start)) by {
                                                assert(rpo[0] == start);
                                            }
                                            lemma_rank(rpo, start);
                                            assert(stop == start);
                                        }
                                    }
                                    assert(idom_iter(dm, p, steps + 1) == dval(dm, runner));
                                    lemma_tree_dom_step(dm, stop, runner);
                                    steps = steps + 1;
                                }
                                runner = idoms[runner].unwrap();
                            }
                            proof {
                                assert forall|d: usize, k: int|
                                    #![trigger allpreds@[k], tree_dom(dm, d, allpreds@[k])]
                                    0 <= k < t + 1 && (d as int) < n && dm[allpreds@[k] as int]
                                        is Some && tree_dom(dm, d, allpreds@[k]) && tree_dom(
                                        dm,
                                        stop,
                                        d,
                                    ) && d != stop implies df@[d as int]@.contains(node) by {
                                    if k == t {
                                        assert(allpreds@[k] == p);
                                        lemma_walk_exact(start, rpo, dm, p, stop, steps, d);
                                        let j = choose|j: nat|
                                            j < steps && idom_iter(dm, p, j) == d;
                                        assert(df@[idom_iter(dm, p, j) as int]@.contains(
                                            node,
                                        ));
                                    }
                                }
                            }
                        }
                    }
                    proof {
                        assert forall|d: int, nd: usize|
                            0 <= d < n && (nd as int) < node + 1 && front_mem(
                                self@,
                                dm,
                                d as usize,
                                nd,
                            ) implies #[trigger] df@[d]@.contains(nd) by {
                            if nd as int == node {
                                let pw = choose|pw: usize|
                                    #[trigger] preds_seq(self@, nd).contains(pw) && (pw as int)
                                        < dm.len() && dm[pw as int] is Some && tree_dom(
                                        dm,
                                        d as usize,
                                        pw,
                                    ) && tree_dom(dm, dval(dm, nd), d as usize) && d as usize
                                        != dval(dm, nd);
                                let kw = choose|kw: int|
                                    0 <= kw < allpreds@.len() && allpreds@[kw] == pw;
                                assert(tree_dom(dm, d as usize, allpreds@[kw]));
                            }
                        }
                    }
                } else {
                    proof {
                        assert forall|d: int, nd: usize|
                            0 <= d < n && (nd as int) < node + 1 && front_mem(
                                self@,
                                dm,
                                d as usize,
                                nd,
                            ) implies #[trigger] df@[d]@.contains(nd) by {
                            if nd as int == node {
                                assert(preds_seq(self@, nd).len() >= 2);
                                assert(false);
                            }
                        }
                    }
                }
            } else {
                proof {
                    assert forall|d: int, nd: usize|
                        0 <= d < n && (nd as int) < node + 1 && front_mem(
                            self@,
                            dm,
                            d as usize,
                            nd,
                        ) implies #[trigger] df@[d]@.contains(nd) by {
                        if nd as int == node {
                            assert(dm[nd as int] is Some);
                            assert(false);
                        }
                    }
                }
            }
        }
        proof {
            assert(dom_ok(self@, start, dm)) by {
                assert(dom_ok_with(self@, start, rpo, dm));
            }
            assert(frontier_ok(self@, dm, df@)) by {
                assert forall|d: int, node: usize|
                    0 <= d < df@.len() implies (#[trigger] df@[d]@.contains(node) <==> front_mem(
                    self@,
                    dm,
                    d as usize,
                    node,
                )) by {
                    if front_mem(self@, dm, d as usize, node) {
                        assert((node as int) < n);
                    }
                }
            }
        }
        df
    }
}

/// The computed dominance frontiers agree with the textbook definition,
/// read over the recorded dominator tree: a join point `node` lies in the
/// frontier of `d` exactly when `d` dominates some reachable predecessor of
/// `node` and does not strictly dominate `node` itself. Stated for join
/// points (two or more predecessor occurrences) other than the start block;
/// blocks with fewer predecessor occurrences never enter a computed
/// frontier.
pub proof fn lemma_frontier_textbook(
    adj: Seq<Seq<usize>>,
    start: usize,
    doms: Seq<Option<usize>>,
    df: Seq<Vec<usize>>,
    d: usize,
    node: usize,
)
    requires
        dom_ok(adj, start, doms),
        frontier_ok(adj, doms, df),
        (node as int) < adj.len(),
        (d as int) < adj.len(),
        node != start,
        reachable(adj, start, node),
        preds_seq(adj, node).len() >= 2,
        adj.len() <= usize::MAX,
    ensures
        df[d as int]@.contains(node) <==> ((exists|p: usize|
            #[trigger] edge(adj, p, node) && reachable(adj, start, p) && tree_dom(doms, d, p))
            && !(tree_dom(doms, d, node) && d != node)),
{
    let rpo = choose|rpo: Seq<usize>| dom_ok_with(adj, start, rpo, doms);
    assert(doms[node as int] is Some);
    lemma_slot(start, rpo, doms, node);
    let stop = dval(doms, node);
    lemma_rank(rpo, node);
    lemma_rank(rpo, stop);
    assert(idom_iter(doms, node, 0) == node);
    assert(idom_iter(doms, node, 1) == stop);
    assert(tree_dom(doms, stop, node));
    assert(stop != node) by {
        assert(rank_of(rpo, stop) < rank_of(rpo, node));
    }
    if df[d as int]@.contains(node) {
        assert(front_mem(adj, doms, d, node));
        let p = choose|p: usize|
            #[trigger] preds_seq(adj, node).contains(p) && (p as int) < doms.len() && doms[p as int]
                is Some && tree_dom(doms, d, p) && tree_dom(doms, stop, d) && d != stop;
        lemma_preds_seq_contains(adj, node, p);
        assert(edge(adj, p, node));
        assert(reachable(adj, start, p));
        if tree_dom(doms, d, node) && d != node {
            lemma_tree_dom_step(doms, d, node);
            assert(tree_dom(doms, d, stop));
            lemma_slot(start, rpo, doms, stop);
            lemma_tree_dom_antisym(start, rpo, doms, d, stop);
            assert(false);
        }
    }
    if (exists|p: usize|
        #[trigger] edge(adj, p, node) && reachable(adj, start, p) && tree_dom(doms, d, p)) && !(
    tree_dom(doms, d, node) && d != node) {
        let p = choose|p: usize|
            #[trigger] edge(adj, p, node) && reachable(adj, start, p) && tree_dom(doms, d, p);
        assert(doms[p as int] is Some);
        lemma_preds_seq_contains(adj, node, p);
        assert(tree_dom(doms, stop, p)) by {
            assert(cover_ok(adj, start, doms));
        }
        assert(d != stop) by {
            if d == stop {
                assert(tree_dom(doms, d, node));
                assert(d != node) by {
                    assert(rank_of(rpo, stop) < rank_of(rpo, node));
                }
                assert(false);
            }
        }
        lemma_tree_dom_linear(doms, d, stop, p);
        if tree_dom(doms, d, stop) {
            let k = choose|k: nat| idom_iter(doms, stop, k) == d;
            lemma_iter_compose(doms, node, 1, k);
            assert(idom_iter(doms, node, 1 + k) == d);
            assert(tree_dom(doms, d, node));
            lemma_slot(start, rpo, doms, stop);
            assert(d != node) by {
                lemma_tree_dom_rank(start, rpo, doms, d, stop);
                assert(rank_of(rpo, d) <= rank_of(rpo, stop) < rank_of(rpo, node));
                if d == node {
                    lemma_rank(rpo, d);
                }
            }
            assert(false);
        }
        assert(tree_dom(doms, stop, d));
        assert(front_mem(adj, doms, d, node)) by {
            assert(preds_seq(adj, node).contains(p) && (p as int) < doms.len() && doms[p as int]
                is Some && tree_dom(doms, d, p) && tree_dom(doms, dval(doms, node), d) && d
                != dval(doms, node));
        }
    }
}

/// Path-based dominance: `d` lies on every path from `start` to `b`.
pub open spec fn dominates(adj: Seq<Seq<usize>>, start: usize, d: usize, b: usize) -> bool {
    forall|p: Seq<usize>|
        #![trigger is_path(adj, p)]
        is_path(adj, p) && p[0] == start && p.last() == b ==> p.contains(d)
}

/// Tree ancestry composes.
proof fn lemma_tree_dom_trans(doms: Seq<Option<usize>>, d: usize, mid: usize, b: usize)
    requires
        tree_dom(doms, mid, b),
        tree_dom(doms, d, mid),
    ensures
        tree_dom(doms, d, b),
{
    let k1 = choose|k: nat| idom_iter(doms, b, k) == mid;
    let k2 = choose|k: nat| idom_iter(doms, mid, k) == d;
    lemma_iter_compose(doms, b, k1, k2);
    assert(idom_iter(doms, b, k1 + k2) == d);
}

/// Along any path from the start block, every strict tree ancestor of the
/// endpoint appears on the path: recorded chains under the cover property
/// only name blocks the control flow cannot avoid.
proof fn lemma_path_hits_ancestors(
    adj: Seq<Seq<usize>>,
    start: usize,
    rpo: Seq<usize>,
    doms: Seq<Option<usize>>,
    p: Seq<usize>,
)
    requires
        dom_ok_with(adj, start, rpo, doms),
        is_path(adj, p),
        p[0] == start,
    ensures
        forall|d: usize|
            tree_dom(doms, d, p.last()) && d != p.last() ==> #[trigger] p.contains(d),
    decreases p.len(),
{
    let x = p.last();
    assert(reachable(adj, start, x)) by {
        assert(is_path(adj, p) && p[0] == start && p.last() == x);
    }
    assert(doms[x as int] is Some);
    if p.len() == 1 {
        assert(x == start);
        assert forall|d: usize|
            tree_dom(doms, d, p.last()) && d != p.last() implies #[trigger] p.contains(d) by {
            let k = choose|k: nat| idom_iter(doms, start, k) == d;
            lemma_iter_start(start, rpo, doms, k);
            assert(false);
        }
    } else {
        let q = p[p.len() - 2];
        let pq = p.drop_last();
        assert(is_path(adj, pq)) by {
            assert forall|i: int| 0 <= i < pq.len() - 1 implies edge(adj, #[trigger] pq[i], pq[i
                + 1]) by {
                assert(edge(adj, p[i], p[i + 1]));
            }
        }
        assert(pq[0] == start && pq.last() == q);
        lemma_path_hits_ancestors(adj, start, rpo, doms, pq);
        assert(reachable(adj, start, q)) by {
            assert(is_path(adj, pq) && pq[0] == start && pq.last() == q);
        }
        assert(doms[q as int] is Some);
        assert(edge(adj, p[p.len() - 2], p[p.len() - 1]));
        assert forall|d: usize|
            tree_dom(doms, d, p.last()) && d != p.last() implies #[trigger] p.contains(d) by {
            if x == start {
                let k = choose|k: nat| idom_iter(doms, start, k) == d;
                lemma_iter_start(start, rpo, doms, k);
                assert(false);
            } else {
                lemma_tree_dom_step(doms, d, x);
                assert(tree_dom(doms, dval(doms, x), q)) by {
                    assert(cover_ok(adj, start, doms));
                    assert(edge(adj, q, x));
                }
                lemma_tree_dom_trans(doms, d, dval(doms, x), q);
                if d == q {
                    assert(p[p.len() - 2] == d);
                } else {
                    assert(pq.contains(d));
                    let w = choose|w: int| 0 <= w < pq.len() && pq[w] == d;
                    assert(p[w] == d);
                }
            }
        }
    }
}

/// Soundness of the recorded tree: every strict tree ancestor of a
/// reachable block — its recorded dominator, that one's, and so on — lies
/// on every path from the start block to it. The recorded dominators are
/// true dominators; that each is the closest one is not stated.
pub proof fn lemma_recorded_dominators_sound(
    adj: Seq<Seq<usize>>,
    start: usize,
    doms: Seq<Option<usize>>,
    d: usize,
    b: usize,
)
    requires
        dom_ok(adj, start, doms),
        (b as int) < doms.len(),
        doms[b as int] is Some,
        tree_dom(doms, d, b),
    ensures
        dominates(adj, start, d, b),
{
    let rpo = choose|rpo: Seq<usize>| dom_ok_with(adj, start, rpo, doms);
    assert forall|p: Seq<usize>|
        #![trigger is_path(adj, p)]
        is_path(adj, p) && p[0] == start && p.last() == b implies p.contains(d) by {
        if d == b {
            assert(p[p.len() - 1] == b);
        } else {
            lemma_path_hits_ancestors(adj, start, rpo, doms, p);
        }
    }
}

} // verus!
