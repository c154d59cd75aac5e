//! A plain directed graph over dense node indices, with the traversal
//! engine: reverse-postorder numbering by iterative depth-first search.

use vstd::prelude::*;

verus! {

/// A directed graph: `nodes[i]` lists the successors of node `i` in stored
/// order (edge order is significant and duplicates are kept).
#[derive(Debug, Clone)]
pub struct Graph {
    /// The adjacency list: one row of successor indices per node.
    pub nodes: Vec<Vec<usize>>,
}

impl View for Graph {
    type V = Seq<Seq<usize>>;

    open spec fn view(&self) -> Seq<Seq<usize>> {
        self.nodes@.map_values(|row: Vec<usize>| row@)
    }
}

impl Graph {
    /// The number of nodes.
    pub open spec fn n(self) -> nat {
        self@.len()
    }

    /// True when every successor index is a node of the graph.
    pub open spec fn wf(self) -> bool {
        adj_wf(self@)
    }
}

/// True when every successor index in the adjacency view is in range.
pub open spec fn adj_wf(adj: Seq<Seq<usize>>) -> bool {
    forall|i: int, j: int|
        0 <= i < adj.len() && 0 <= j < adj[i].len() ==> (#[trigger] adj[i][j] as int) < adj.len()
}

/// True when the graph has an edge from `a` to `b`.
pub open spec fn edge(adj: Seq<Seq<usize>>, a: usize, b: usize) -> bool {
    (a as int) < adj.len() && adj[a as int].contains(b)
}

/// A non-empty walk along edges: every element is a node and consecutive
/// elements are joined by an edge.
pub open spec fn is_path(adj: Seq<Seq<usize>>, p: Seq<usize>) -> bool {
    &&& p.len() > 0
    &&& forall|i: int| 0 <= i < p.len() ==> (#[trigger] p[i] as int) < adj.len()
    &&& forall|i: int| 0 <= i < p.len() - 1 ==> edge(adj, #[trigger] p[i], p[i + 1])
}

/// True when some path leads from `s` to `t` (reflexively: a node reaches
/// itself by the one-element path).
pub open spec fn reachable(adj: Seq<Seq<usize>>, s: usize, t: usize) -> bool {
    exists|p: Seq<usize>| is_path(adj, p) && p[0] == s && p.last() == t
}

/// A node reaches itself.
pub proof fn lemma_reachable_refl(adj: Seq<Seq<usize>>, s: usize)
    requires
        (s as int) < adj.len(),
    ensures
        reachable(adj, s, s),
{
    let p = seq![s];
    assert(is_path(adj, p));
    assert(p[0] == s && p.last() == s);
}

/// Reachability extends across one edge.
pub proof fn lemma_reachable_step(adj: Seq<Seq<usize>>, s: usize, a: usize, b: usize)
    requires
        reachable(adj, s, a),
        edge(adj, a, b),
        (b as int) < adj.len(),
    ensures
        reachable(adj, s, b),
{
    let p = choose|p: Seq<usize>| is_path(adj, p) && p[0] == s && p.last() == a;
    let q = p.push(b);
    assert(q.last() == b);
    assert(q[0] == s);
    assert forall|i: int| 0 <= i < q.len() - 1 implies edge(adj, #[trigger] q[i], q[i + 1]) by {
        if i < p.len() - 1 {
            assert(edge(adj, p[i], p[i + 1]));
        } else {
            assert(q[i] == p.last() && q[i + 1] == b);
        }
    }
    assert(is_path(adj, q));
}

/// Walking a path whose head is marked, inside a mark set closed under
/// edges, ends at a marked node.
proof fn lemma_path_stays_marked(adj: Seq<Seq<usize>>, marks: Seq<bool>, p: Seq<usize>)
    requires
        marks.len() == adj.len(),
        is_path(adj, p),
        marks[p[0] as int],
        forall|v: usize, w: usize|
            (v as int) < marks.len() && marks[v as int] && #[trigger] edge(adj, v, w) ==> (
            w as int) < marks.len() && marks[w as int],
    ensures
        marks[p.last() as int],
    decreases p.len(),
{
    if p.len() > 1 {
        let q = p.drop_last();
        assert(q[0] == p[0]);
        assert forall|i: int| 0 <= i < q.len() - 1 implies edge(adj, #[trigger] q[i], q[i + 1]) by {
            assert(edge(adj, p[i], p[i + 1]));
        }
        lemma_path_stays_marked(adj, marks, q);
        assert(edge(adj, p[p.len() - 2], p[p.len() - 1]));
        assert(marks[q.last() as int]);
    }
}

/// Every node reachable from a marked node is marked, when the mark set is
/// closed under edges.
pub proof fn lemma_closed_marks_cover(adj: Seq<Seq<usize>>, marks: Seq<bool>, s: usize, t: usize)
    requires
        marks.len() == adj.len(),
        (s as int) < adj.len(),
        marks[s as int],
        forall|v: usize, w: usize|
            (v as int) < marks.len() && marks[v as int] && #[trigger] edge(adj, v, w) ==> (
            w as int) < marks.len() && marks[w as int],
        reachable(adj, s, t),
    ensures
        marks[t as int],
{
    let p = choose|p: Seq<usize>| is_path(adj, p) && p[0] == s && p.last() == t;
    lemma_path_stays_marked(adj, marks, p);
}

/// How many entries of `row` before position `j` equal `node`.
pub open spec fn occurrences_before(row: Seq<usize>, node: usize, j: int) -> nat
    decreases j,
{
    if j <= 0 {
        0
    } else {
        occurrences_before(row, node, j - 1) + (if row[j - 1] == node {
            1nat
        } else {
            0nat
        })
    }
}

/// How many entries of `row` equal `node`.
pub open spec fn row_occurrences(row: Seq<usize>, node: usize) -> nat {
    occurrences_before(row, node, row.len() as int)
}

/// The predecessor occurrences of `node` contributed by the first `k` rows:
/// row `i` contributes `i` once per edge `i -> node`.
pub open spec fn preds_upto(adj: Seq<Seq<usize>>, node: usize, k: int) -> Seq<usize>
    decreases k,
{
    if k <= 0 {
        Seq::empty()
    } else {
        preds_upto(adj, node, k - 1) + Seq::new(
            row_occurrences(adj[k - 1], node),
            |x: int| (k - 1) as usize,
        )
    }
}

/// All predecessor occurrences of `node`, in row order, with multiplicity:
/// a node whose successor list names `node` twice appears here twice.
pub open spec fn preds_seq(adj: Seq<Seq<usize>>, node: usize) -> Seq<usize> {
    preds_upto(adj, node, adj.len() as int)
}

/// A row counts an occurrence before `j` exactly when it holds `node` there.
proof fn lemma_occurrences_pos(row: Seq<usize>, node: usize, j: int)
    requires
        0 <= j <= row.len(),
    ensures
        occurrences_before(row, node, j) > 0 <==> exists|i: int| 0 <= i < j && row[i] == node,
    decreases j,
{
    if j > 0 {
        lemma_occurrences_pos(row, node, j - 1);
        if row[j - 1] == node {
            assert(exists|i: int| 0 <= i < j && row[i] == node);
        }
    }
}

/// Membership in the predecessor prefix: exactly the rows below `k` with an
/// edge to `node`.
proof fn lemma_preds_upto_contains(adj: Seq<Seq<usize>>, node: usize, k: int, p: usize)
    requires
        0 <= k <= adj.len(),
        k <= usize::MAX,
    ensures
        preds_upto(adj, node, k).contains(p) <==> (p as int) < k && adj[p as int].contains(node),
    decreases k,
{
    if k > 0 {
        lemma_preds_upto_contains(adj, node, k - 1, p);
        lemma_occurrences_pos(adj[k - 1], node, adj[k - 1].len() as int);
        let pre = preds_upto(adj, node, k - 1);
        let ext = Seq::new(row_occurrences(adj[k - 1], node), |x: int| (k - 1) as usize);
        assert(preds_upto(adj, node, k) == pre + ext);
        if (p as int) < k && adj[p as int].contains(node) {
            if (p as int) == k - 1 {
                assert(row_occurrences(adj[k - 1], node) > 0);
                assert((pre + ext)[pre.len() as int] == p);
                assert((pre + ext).contains(p));
            } else {
                let i = choose|i: int| 0 <= i < pre.len() && pre[i] == p;
                assert((pre + ext)[i] == p);
                assert((pre + ext).contains(p));
            }
        }
        if (pre + ext).contains(p) {
            let i = choose|i: int| 0 <= i < (pre + ext).len() && (pre + ext)[i] == p;
            if i >= pre.len() {
                assert(ext[i - pre.len()] == p);
                assert(p as int == k - 1);
                assert(row_occurrences(adj[k - 1], node) > 0);
                let w = choose|w: int| 0 <= w < adj[k - 1].len() && #[trigger] adj[k - 1][w]
                    == node;
                assert(adj[p as int].contains(node));
            } else {
                assert(pre[i] == p);
                assert(pre.contains(p));
            }
        }
    }
}

/// Membership in the predecessor list is exactly the edge relation.
pub proof fn lemma_preds_seq_contains(adj: Seq<Seq<usize>>, node: usize, p: usize)
    requires
        adj.len() <= usize::MAX,
    ensures
        preds_seq(adj, node).contains(p) <==> edge(adj, p, node),
{
    lemma_preds_upto_contains(adj, node, adj.len() as int, p);
}

impl Graph {
    /// Lists, in row order and with multiplicity, every node whose successor
    /// list names `node`: the inverse of the successor relation.
    pub fn get_predecessors(&self, node: usize) -> (preds: Vec<usize>)
        ensures
            preds@ == preds_seq(self@, node),
    {
        let mut preds: Vec<usize> = Vec::new();
        let n = self.nodes.len();
        assert(self@.len() == n);
        for i in 0..n
            invariant
                n == self@.len(),
                preds@ == preds_upto(self@, node, i as int),
        {
            let row_len = self.nodes[i].len();
            assert(self@[i as int] == self.nodes@[i as int]@);
            for j in 0..row_len
                invariant
                    n == self@.len(),
                    i < n,
                    row_len == self@[i as int].len(),
                    preds@ == preds_upto(self@, node, i as int) + Seq::new(
                        occurrences_before(self@[i as int], node, j as int),
                        |x: int| i,
                    ),
            {
                let ghost cnt = occurrences_before(self@[i as int], node, j as int);
                if self.nodes[i][j] == node {
                    preds.push(i);
                    assert(preds@ == preds_upto(self@, node, i as int) + Seq::new(
                        occurrences_before(self@[i as int], node, j + 1),
                        |x: int| i,
                    )) by {
                        assert(occurrences_before(self@[i as int], node, j + 1) == cnt + 1);
                        assert(Seq::new(cnt + 1, |x: int| i) =~= Seq::new(cnt, |x: int| i).push(
                            i,
                        ));
                        assert(preds_upto(self@, node, i as int) + Seq::new(cnt, |x: int| i).push(
                            i,
                        ) =~= (preds_upto(self@, node, i as int) + Seq::new(cnt, |x: int| i)).push(
                            i,
                        ));
                    }
                } else {
                    assert(occurrences_before(self@[i as int], node, j + 1) == cnt);
                }
            }
            assert(preds@ == preds_upto(self@, node, i + 1)) by {
                assert(row_occurrences(self@[i as int], node) == occurrences_before(
                    self@[i as int],
                    node,
                    row_len as int,
                ));
            }
        }
        preds
    }
}

/// How many entries of `marks` before position `j` are set.
pub open spec fn marks_before(marks: Seq<bool>, j: int) -> nat
    decreases j,
{
    if j <= 0 {
        0
    } else {
        marks_before(marks, j - 1) + (if marks[j - 1] {
            1nat
        } else {
            0nat
        })
    }
}

/// A mark count never exceeds the prefix length.
pub proof fn lemma_marks_le(marks: Seq<bool>, j: int)
    requires
        0 <= j,
    ensures
        marks_before(marks, j) <= j,
    decreases j,
{
    if j > 0 {
        lemma_marks_le(marks, j - 1);
    }
}

/// Setting an unset mark raises the count of every prefix that covers it by
/// one and leaves the others alone.
pub proof fn lemma_marks_update(marks: Seq<bool>, i: int, j: int)
    requires
        0 <= i < marks.len(),
        !marks[i],
        0 <= j <= marks.len(),
    ensures
        marks_before(marks.update(i, true), j) == marks_before(marks, j) + (if i < j {
            1int
        } else {
            0int
        }),
    decreases j,
{
    if j > 0 {
        lemma_marks_update(marks, i, j - 1);
    }
}


/// The first successor in `row` from position `j` on that is not yet
/// visited.
pub open spec fn first_unvisited(row: Seq<usize>, visited: Seq<bool>, j: int) -> Option<usize>
    decreases row.len() - j,
{
    if j < 0 || j >= row.len() {
        None
    } else if !visited[row[j] as int] {
        Some(row[j])
    } else {
        first_unvisited(row, visited, j + 1)
    }
}

/// The depth-first-search state is well formed.
pub open spec fn dfs_wf(adj: Seq<Seq<usize>>, stack: Seq<usize>, visited: Seq<bool>) -> bool {
    &&& adj_wf(adj)
    &&& visited.len() == adj.len()
    &&& forall|t: int| 0 <= t < stack.len() ==> (#[trigger] stack[t] as int) < adj.len()
}

/// A found successor is a real, in-range, unvisited row entry.
proof fn lemma_first_unvisited_sound(row: Seq<usize>, visited: Seq<bool>, j: int)
    requires
        first_unvisited(row, visited, j) is Some,
    ensures
        exists|w: int|
            j <= w < row.len() && #[trigger] row[w] == first_unvisited(row, visited, j)->Some_0,
        !visited[first_unvisited(row, visited, j)->Some_0 as int],
    decreases row.len() - j,
{
    if !(j < 0 || j >= row.len()) {
        if !visited[row[j] as int] {
            assert(row[j] == first_unvisited(row, visited, j)->Some_0);
        } else {
            lemma_first_unvisited_sound(row, visited, j + 1);
        }
    }
}

/// The postorder a depth-first search leaves behind, from a given state: the
/// top of the stack pushes its first unvisited successor, or is finished and
/// appended to the postorder list.
pub open spec fn dfs_walk(
    adj: Seq<Seq<usize>>,
    stack: Seq<usize>,
    visited: Seq<bool>,
    path: Seq<usize>,
) -> Seq<usize>
    decreases adj.len() - marks_before(visited, visited.len() as int), stack.len(),
        when dfs_wf(adj, stack, visited) via dfs_walk_decreases
{
    if stack.len() == 0 {
        path
    } else {
        let node = stack.last();
        match first_unvisited(adj[node as int], visited, 0) {
            Some(nb) => dfs_walk(adj, stack.push(nb), visited.update(nb as int, true), path),
            None => dfs_walk(adj, stack.drop_last(), visited, path.push(node)),
        }
    }
}

/// The search terminates: each step visits a new node or shortens the stack.
#[via_fn]
proof fn dfs_walk_decreases(
    adj: Seq<Seq<usize>>,
    stack: Seq<usize>,
    visited: Seq<bool>,
    path: Seq<usize>,
)
{
    lemma_marks_le(visited, visited.len() as int);
    if stack.len() > 0 {
        let node = stack.last();
        match first_unvisited(adj[node as int], visited, 0) {
            Some(nb) => {
                lemma_first_unvisited_sound(adj[node as int], visited, 0);
                assert((nb as int) < adj.len()) by {
                    let w = choose|w: int|
                        0 <= w < adj[node as int].len() && #[trigger] adj[node as int][w] == nb;
                }
                lemma_marks_update(visited, nb as int, visited.len() as int);
                lemma_marks_le(visited.update(nb as int, true), visited.len() as int);
            },
            None => {},
        }
    }
}

/// The marks at the start of the search: only the start node visited.
pub open spec fn init_marks(n: nat, start: usize) -> Seq<bool> {
    Seq::new(n, |i: int| i == start as int)
}

/// The reverse postorder of the whole search from `start`: what the
/// traversal engine returns, as a function of the graph and the start node
/// alone — the traversal is deterministic.
pub open spec fn rpo_spec(adj: Seq<Seq<usize>>, start: usize) -> Seq<usize> {
    dfs_walk(adj, seq![start], init_marks(adj.len(), start), Seq::empty()).reverse()
}

/// What the traversal engine returns: an order holding every block
/// reachable from `start` exactly once and nothing else, beginning at
/// `start`, in which every later entry has some predecessor placed earlier.
pub open spec fn rpo_ok(adj: Seq<Seq<usize>>, start: usize, rpo: Seq<usize>) -> bool {
    &&& rpo.len() > 0 && rpo[0] == start
    &&& rpo.no_duplicates()
    &&& forall|i: int|
        0 <= i < rpo.len() ==> (#[trigger] rpo[i] as int) < adj.len() && reachable(
            adj,
            start,
            rpo[i],
        )
    &&& forall|t: usize| (t as int) < adj.len() && reachable(adj, start, t) ==> rpo.contains(t)
    &&& forall|i: int| #![trigger rpo[i]]
        1 <= i < rpo.len() ==> exists|j: int| 0 <= j < i && edge(adj, #[trigger] rpo[j], rpo[i])
}


/// From a finished depth-first postorder list `p` (marks `visited` agreeing
/// with it, closed under edges, ending at `start`, each non-start entry with
/// a predecessor outside its own prefix), the reversed list `r` is a valid
/// reverse postorder.
proof fn lemma_rpo_from_path(
    adj: Seq<Seq<usize>>,
    start: usize,
    visited: Seq<bool>,
    p: Seq<usize>,
    r: Seq<usize>,
)
    requires
        visited.len() == adj.len(),
        (start as int) < adj.len(),
        p.no_duplicates(),
        forall|i: int| 0 <= i < p.len() ==> (#[trigger] p[i] as int) < adj.len(),
        forall|v: usize|
            (v as int) < adj.len() ==> (visited[v as int] <==> p.contains(v)),
        forall|v: usize|
            (v as int) < adj.len() && visited[v as int] ==> reachable(adj, start, v),
        forall|i: int, w: usize|
            0 <= i < p.len() && #[trigger] edge(adj, p[i], w) ==> (w as int) < adj.len()
                && visited[w as int],
        p.len() > 0 && p.last() == start,
        visited[start as int],
        forall|i: int| #![trigger p[i]]
            0 <= i < p.len() && p[i] != start ==> exists|q: usize|
                #[trigger] edge(adj, q, p[i]) && (q as int) < adj.len() && visited[q as int]
                    && !p.take(i + 1).contains(q),
        r.len() == p.len(),
        forall|k: int| 0 <= k < r.len() ==> #[trigger] r[k] == p[p.len() - 1 - k],
    ensures
        rpo_ok(adj, start, r),
{
    assert(r[0] == p[p.len() - 1]);
    assert(r.no_duplicates()) by {
        assert forall|i: int, j: int|
            0 <= i < r.len() && 0 <= j < r.len() && i != j implies r[i] != r[j] by {
            assert(r[i] == p[p.len() - 1 - i]);
            assert(r[j] == p[p.len() - 1 - j]);
        }
    }
    assert forall|t: usize|
        (t as int) < adj.len() && reachable(adj, start, t) implies r.contains(t) by {
        lemma_closed_marks_cover(adj, visited, start, t);
        assert(p.contains(t));
        let i = choose|i: int| 0 <= i < p.len() && p[i] == t;
        assert(r[p.len() - 1 - i] == t);
    }
    assert forall|i: int| 0 <= i < r.len() implies (#[trigger] r[i] as int) < adj.len()
        && reachable(adj, start, r[i]) by {
        assert(r[i] == p[p.len() - 1 - i]);
        assert(p.contains(p[p.len() - 1 - i]));
    }
    assert forall|i: int| #![trigger r[i]] 1 <= i < r.len() implies exists|j: int|
        0 <= j < i && edge(adj, #[trigger] r[j], r[i]) by {
        let pi = p.len() - 1 - i;
        assert(r[i] == p[pi]);
        assert(p[pi] != start) by {
            assert(p[p.len() - 1] == start);
        }
        let q = choose|q: usize|
            #[trigger] edge(adj, q, p[pi]) && (q as int) < adj.len() && visited[q as int]
                && !p.take(pi + 1).contains(q);
        assert(p.contains(q));
        let pj = choose|pj: int| 0 <= pj < p.len() && p[pj] == q;
        assert(pj > pi) by {
            if pj <= pi {
                assert(p.take(pi + 1)[pj] == q);
                assert(p.take(pi + 1).contains(q));
            }
        }
        assert(r[p.len() - 1 - pj] == q);
        assert(0 <= p.len() - 1 - pj < i);
        assert(edge(adj, r[p.len() - 1 - pj], r[i]));
    }
}

impl Graph {
    /// Reverse-postorder traversal: iterative depth-first search from
    /// `start` with an explicit stack (no recursion), successors scanned in
    /// stored order; the postorder list, reversed, is returned. Every
    /// reachable node appears exactly once, no unreachable node appears, the
    /// order begins at `start`, and each later node is preceded by one of
    /// its predecessors.
    #[verifier::rlimit(100)]
    pub fn reverse_postorder_traversal(&self, start: usize) -> (rpo: Vec<usize>)
        requires
            self.wf(),
            (start as int) < self@.len(),
        ensures
            rpo_ok(self@, start, rpo@),
            rpo@ == rpo_spec(self@, start),
    {
        let n = self.nodes.len();
        assert(self@.len() == n);
        let mut visited: Vec<bool> = Vec::new();
        for v in 0..n
            invariant
                visited@.len() == v,
                forall|k: int| 0 <= k < v ==> !visited@[k],
        {
            visited.push(false);
        }
        let mut stack: Vec<usize> = Vec::new();
        let mut path: Vec<usize> = Vec::new();
        visited[start] = true;
        stack.push(start);
        let ghost target = dfs_walk(self@, seq![start], init_marks(self@.len(), start), Seq::empty());
        proof {
            assert(visited@ =~= init_marks(self@.len(), start));
            assert(stack@ =~= seq![start]);
            lemma_reachable_refl(self@, start);
            assert(stack@[0] == start);
            assert forall|v: usize|
                (v as int) < n implies (visited@[v as int] <==> (stack@.contains(v)
                    || path@.contains(v))) by {
                if v == start {
                    assert(stack@.contains(start));
                } else {
                    if stack@.contains(v) {
                        let i = choose|i: int| 0 <= i < stack@.len() && stack@[i] == v;
                        assert(stack@[i] == start);
                    }
                }
            }
        }
        while stack.len() > 0
            invariant
                self.wf(),
                (start as int) < self@.len(),
                n == self@.len(),
                visited@.len() == n,
                stack@.no_duplicates(),
                path@.no_duplicates(),
                forall|v: usize| !(stack@.contains(v) && path@.contains(v)),
                forall|i: int| 0 <= i < stack@.len() ==> (#[trigger] stack@[i] as int) < n,
                forall|i: int| 0 <= i < path@.len() ==> (#[trigger] path@[i] as int) < n,
                forall|v: usize|
                    (v as int) < n ==> (visited@[v as int] <==> (stack@.contains(v)
                        || path@.contains(v))),
                forall|v: usize|
                    (v as int) < n && visited@[v as int] ==> reachable(self@, start, v),
                forall|i: int, w: usize|
                    0 <= i < path@.len() && #[trigger] edge(self@, path@[i], w) ==> (w as int) < n
                        && visited@[w as int],
                forall|i: int|
                    1 <= i < stack@.len() ==> edge(self@, stack@[i - 1], #[trigger] stack@[i]),
                stack@.len() > 0 ==> stack@[0] == start,
                stack@.len() == 0 ==> path@.len() > 0 && path@.last() == start,
                visited@[start as int],
                forall|i: int| #![trigger path@[i]]
                    0 <= i < path@.len() && path@[i] != start ==> exists|q: usize|
                        #[trigger] edge(self@, q, path@[i]) && (q as int) < n
                            && visited@[q as int] && !path@.take(i + 1).contains(q),
                dfs_walk(self@, stack@, visited@, path@) == target,
            decreases n - marks_before(visited@, n as int), stack@.len(),
        {
            let node = stack[stack.len() - 1];
            let row_len = self.nodes[node].len();
            assert(self@[node as int] == self.nodes@[node as int]@);
            let mut found: Option<usize> = None;
            for j in 0..row_len
                invariant
                    n == self@.len(),
                    visited@.len() == n,
                    (node as int) < n,
                    row_len == self@[node as int].len(),
                    self@[node as int] == self.nodes@[node as int]@,
                    self.wf(),
                    found is None ==> forall|k: int|
                        0 <= k < j ==> visited@[#[trigger] self@[node as int][k] as int],
                    found is None ==> first_unvisited(self@[node as int], visited@, 0)
                        == first_unvisited(self@[node as int], visited@, j as int),
                    found matches Some(nb) ==> edge(self@, node, nb) && (nb as int) < n
                        && !visited@[nb as int],
                    found matches Some(nb) ==> first_unvisited(self@[node as int], visited@, 0)
                        == Some(nb),
            {
                let cand = self.nodes[node][j];
                proof {
                    assert(self@[node as int][j as int] == cand);
                    if found is None {
                        if !visited@[cand as int] {
                            assert(first_unvisited(self@[node as int], visited@, j as int)
                                == Some(cand));
                        } else {
                            assert(first_unvisited(self@[node as int], visited@, j as int)
                                == first_unvisited(self@[node as int], visited@, j + 1));
                        }
                    }
                }
                if found.is_none() && !visited[cand] {
                    found = Some(cand);
                    assert(edge(self@, node, cand)) by {
                        assert(self@[node as int][j as int] == cand);
                    }
                }
            }
            proof {
                match found {
                    None => {
                        assert(first_unvisited(self@[node as int], visited@, row_len as int)
                            == None::<usize>);
                    },
                    Some(_) => {},
                }
            }
            match found {
                Some(nb) => {
                    let ghost old_visited = visited@;
                    let ghost old_stack = stack@;
                    proof {
                        assert(old_stack.contains(node));
                        assert(old_visited[node as int]);
                        lemma_reachable_step(self@, start, node, nb);
                    }
                    visited[nb] = true;
                    stack.push(nb);
                    proof {
                        assert(dfs_walk(self@, old_stack, old_visited, path@) == dfs_walk(
                            self@,
                            stack@,
                            visited@,
                            path@,
                        )) by {
                            assert(old_stack.last() == node);
                            assert(first_unvisited(self@[node as int], old_visited, 0) == Some(
                                nb,
                            ));
                            assert(stack@ == old_stack.push(nb));
                            assert(visited@ == old_visited.update(nb as int, true));
                        }
                        lemma_marks_update(old_visited, nb as int, n as int);
                        lemma_marks_le(visited@, n as int);
                        assert forall|v: usize|
                            (v as int) < n implies (visited@[v as int] <==> (stack@.contains(v)
                                || path@.contains(v))) by {
                            if v == nb {
                                assert(stack@[stack@.len() - 1] == nb);
                                assert(stack@.contains(nb));
                            } else {
                                assert(visited@[v as int] == old_visited[v as int]);
                                assert(stack@.contains(v) <==> old_stack.contains(v)) by {
                                    if old_stack.contains(v) {
                                        let i = choose|i: int|
                                            0 <= i < old_stack.len() && old_stack[i] == v;
                                        assert(stack@[i] == v);
                                    }
                                    if stack@.contains(v) {
                                        let i = choose|i: int|
                                            0 <= i < stack@.len() && stack@[i] == v;
                                        if i < old_stack.len() {
                                            assert(old_stack[i] == v);
                                        }
                                    }
                                }
                            }
                        }
                        assert(stack@.no_duplicates()) by {
                            assert(!old_stack.contains(nb));
                            assert(forall|i: int|
                                0 <= i < old_stack.len() ==> #[trigger] stack@[i]
                                    == old_stack[i]);
                        }
                    }
                },
                None => {
                    let ghost old_stack = stack@;
                    let ghost old_path = path@;
                    stack.pop();
                    path.push(node);
                    proof {
                        assert(dfs_walk(self@, old_stack, visited@, old_path) == dfs_walk(
                            self@,
                            stack@,
                            visited@,
                            path@,
                        )) by {
                            assert(old_stack.last() == node);
                            assert(first_unvisited(self@[node as int], visited@, 0)
                                == None::<usize>);
                            assert(stack@ == old_stack.drop_last());
                            assert(path@ == old_path.push(node));
                        }
                        assert(old_stack[old_stack.len() - 1] == node);
                        assert(stack@ == old_stack.drop_last());
                        assert(!stack@.contains(node)) by {
                            if stack@.contains(node) {
                                let i = choose|i: int|
                                    0 <= i < stack@.len() && stack@[i] == node;
                                assert(old_stack[i] == node);
                                assert(old_stack[old_stack.len() - 1] == node);
                            }
                        }
                        assert(!old_path.contains(node));
                        assert(path@.no_duplicates()) by {
                            assert(forall|i: int|
                                0 <= i < old_path.len() ==> #[trigger] path@[i] == old_path[i]);
                        }
                        assert forall|v: usize|
                            (v as int) < n implies (visited@[v as int] <==> (stack@.contains(v)
                                || path@.contains(v))) by {
                            if v == node {
                                assert(path@[path@.len() - 1] == node);
                                assert(path@.contains(node));
                            } else {
                                assert(old_stack.contains(v) <==> stack@.contains(v)) by {
                                    if old_stack.contains(v) {
                                        let i = choose|i: int|
                                            0 <= i < old_stack.len() && old_stack[i] == v;
                                        assert(i < old_stack.len() - 1);
                                        assert(stack@[i] == v);
                                    }
                                }
                                assert(old_path.contains(v) <==> path@.contains(v)) by {
                                    if path@.contains(v) {
                                        let i = choose|i: int|
                                            0 <= i < path@.len() && path@[i] == v;
                                        assert(i < old_path.len());
                                        assert(old_path[i] == v);
                                    }
                                    if old_path.contains(v) {
                                        let i = choose|i: int|
                                            0 <= i < old_path.len() && old_path[i] == v;
                                        assert(path@[i] == v);
                                    }
                                }
                            }
                        }
                        assert forall|i: int, w: usize|
                            0 <= i < path@.len() && #[trigger] edge(self@, path@[i], w) implies (
                        w as int) < n && visited@[w as int] by {
                            if i == path@.len() - 1 {
                                assert(path@[i] == node);
                                let k = choose|k: int|
                                    0 <= k < self@[node as int].len() && self@[node as int][k]
                                        == w;
                                assert(visited@[self@[node as int][k] as int]);
                            } else {
                                assert(old_path[i] == path@[i]);
                                assert(edge(self@, old_path[i], w));
                            }
                        }
                        assert forall|i: int| #![trigger path@[i]]
                            0 <= i < path@.len() && path@[i] != start implies exists|q: usize|
                            #[trigger] edge(self@, q, path@[i]) && (q as int) < n
                                && visited@[q as int] && !path@.take(i + 1).contains(q) by {
                            if i == path@.len() - 1 {
                                assert(path@[i] == node);
                                assert(old_stack[0] == start);
                                assert(old_stack.len() >= 2) by {
                                    if old_stack.len() == 1 {
                                        assert(old_stack[0] == node);
                                    }
                                }
                                let q = old_stack[old_stack.len() - 2];
                                assert(edge(self@, q, node)) by {
                                    assert(edge(
                                        self@,
                                        old_stack[old_stack.len() - 2],
                                        old_stack[old_stack.len() - 1],
                                    ));
                                }
                                assert(stack@[stack@.len() - 1] == q);
                                assert(stack@.contains(q));
                                assert(visited@[q as int]);
                                assert(!path@.contains(q));
                                assert(!path@.take(i + 1).contains(q)) by {
                                    assert(path@.take(i + 1) =~= path@);
                                }
                            } else {
                                assert(old_path[i] == path@[i]);
                                let q = choose|q: usize|
                                    #[trigger] edge(self@, q, old_path[i]) && (q as int) < n
                                        && visited@[q as int] && !old_path.take(i + 1).contains(
                                        q,
                                    );
                                assert(path@.take(i + 1) =~= old_path.take(i + 1));
                                assert(edge(self@, q, path@[i]));
                            }
                        }
                        if stack@.len() == 0 {
                            assert(node == start);
                        }
                        assert(stack@.len() > 0 ==> stack@[0] == start);
                    }
                },
            }
        }
        // The stack is empty: every visited node sits in the postorder list,
        // whose marks are closed under edges, so the list holds exactly the
        // reachable nodes. Reverse it.
        proof {
            assert forall|t: usize|
                (t as int) < n && reachable(self@, start, t) implies path@.contains(t) by {
                lemma_closed_marks_cover(self@, visited@, start, t);
            }
        }
        let mut rpo: Vec<usize> = Vec::new();
        let path_len = path.len();
        for i in 0..path_len
            invariant
                path_len == path@.len(),
                rpo@.len() == i,
                forall|k: int| 0 <= k < i ==> #[trigger] rpo@[k] == path@[path@.len() - 1 - k],
        {
            rpo.push(path[path_len - 1 - i]);
        }
        proof {
            lemma_rpo_from_path(self@, start, visited@, path@, rpo@);
            assert(dfs_walk(self@, stack@, visited@, path@) == path@) by {
                assert(stack@.len() == 0);
            }
            assert(path@.len() > 0);
            assert(path@.reverse() == Seq::new(path@.len(), |i: int| path@[path@.len() - 1 - i]));
            assert forall|k: int| 0 <= k < rpo@.len() implies #[trigger] rpo@[k]
                == path@.reverse()[k] by {
                assert(rpo@[k] == path@[path@.len() - 1 - k]);
            }
            assert(rpo@ =~= path@.reverse());
            assert(rpo@ == rpo_spec(self@, start));
        }
        rpo
    }
}

} // verus!