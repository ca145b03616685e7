//! Minimum-degree ordering for fill reduction.

use vstd::prelude::*;
use crate::csc::{CscMatrix, stores, rows_bounded, lemma_in_col_unique, same_structure};
use crate::perm::is_permutation;

verus! {

broadcast use vstd::seq_lib::lemma_seq_contains_after_push;

/// Number of `true` entries.
pub open spec fn count_true(s: Seq<bool>) -> nat
    decreases s.len(),
{
    if s.len() == 0 {
        0
    } else {
        count_true(s.drop_last()) + if s.last() { 1nat } else { 0nat }
    }
}

proof fn lemma_count_true_le(s: Seq<bool>)
    ensures
        count_true(s) <= s.len(),
    decreases s.len(),
{
    if s.len() > 0 {
        lemma_count_true_le(s.drop_last());
    }
}

proof fn lemma_count_true_update(s: Seq<bool>, i: int, b: bool)
    requires
        0 <= i < s.len(),
    ensures
        count_true(s.update(i, b)) == count_true(s) - (if s[i] { 1int } else { 0int }) + (if b { 1int } else { 0int }),
    decreases s.len(),
{
    if i == s.len() - 1 {
        assert(s.update(i, b).drop_last() =~= s.drop_last());
    } else {
        lemma_count_true_update(s.drop_last(), i, b);
        assert(s.update(i, b).drop_last() =~= s.drop_last().update(i, b));
    }
}

proof fn lemma_count_true_pos(s: Seq<bool>)
    requires
        count_true(s) > 0,
    ensures
        exists|i: int| 0 <= i < s.len() && s[i],
    decreases s.len(),
{
    if s.last() {
        assert(s[s.len() - 1]);
    } else {
        lemma_count_true_pos(s.drop_last());
        let i = choose|i: int| 0 <= i < s.drop_last().len() && s.drop_last()[i];
        assert(s[i]);
    }
}

proof fn lemma_count_true_all(s: Seq<bool>)
    requires
        forall|i: int| 0 <= i < s.len() ==> s[i],
    ensures
        count_true(s) == s.len(),
    decreases s.len(),
{
    if s.len() > 0 {
        lemma_count_true_all(s.drop_last());
    }
}

proof fn lemma_count_true_none(s: Seq<bool>)
    requires
        forall|i: int| 0 <= i < s.len() ==> !s[i],
    ensures
        count_true(s) == 0,
    decreases s.len(),
{
    if s.len() > 0 {
        lemma_count_true_none(s.drop_last());
    }
}

/// `u` and `w` are distinct and joined in the symmetric pattern of `a`, which
/// stores `(u, w)` or `(w, u)`.
pub open spec fn pattern_edge<T>(a: &CscMatrix<T>, u: usize, w: usize) -> bool {
    u != w && (stores(a, u as int, w as int) || stores(a, w as int, u as int))
}

/// Edge `u`-`w` of the elimination graph of `a` once the vertices of `order`
/// have been eliminated in turn; eliminating `v` removes it and joins its
/// neighbours pairwise.
pub open spec fn elim_edge<T>(a: &CscMatrix<T>, order: Seq<usize>, u: usize, w: usize) -> bool
    decreases order.len(),
{
    if order.len() == 0 {
        pattern_edge(a, u, w)
    } else {
        let pre = order.drop_last();
        let v = order.last();
        &&& u != v
        &&& w != v
        &&& (elim_edge(a, pre, u, w) || (u != w && elim_edge(a, pre, u, v) && elim_edge(a, pre, w, v)))
    }
}

/// Neighbours of `u` in that elimination graph.
pub open spec fn elim_neighbours<T>(a: &CscMatrix<T>, order: Seq<usize>, u: usize) -> Set<usize> {
    Set::new(|w: usize| elim_edge(a, order, u, w))
}

/// Degree of `u` in that elimination graph.
pub open spec fn elim_degree<T>(a: &CscMatrix<T>, order: Seq<usize>, u: usize) -> nat {
    elim_neighbours(a, order, u).len()
}

/// `v` is the minimum-degree choice once `pre` has been eliminated: a vertex
/// that remains, whose degree is the smallest among the remaining vertices,
/// and the lowest index among the remaining vertices of that degree.
pub open spec fn min_degree_choice<T>(a: &CscMatrix<T>, pre: Seq<usize>, v: usize) -> bool {
    &&& v < a.n
    &&& !pre.contains(v)
    &&& forall|w: usize| w < a.n && !pre.contains(w) ==> elim_degree(a, pre, v) <= #[trigger] elim_degree(a, pre, w)
    &&& forall|w: usize| w < v && !pre.contains(w) ==> elim_degree(a, pre, v) < #[trigger] elim_degree(a, pre, w)
}

/// Every vertex of `perm` is the minimum-degree choice once the vertices
/// before it have been eliminated.
pub open spec fn is_min_degree_order<T>(a: &CscMatrix<T>, perm: Seq<usize>) -> bool {
    forall|k: int| 0 <= k < perm.len() ==> min_degree_choice(a, perm.take(k), #[trigger] perm[k])
}

/// Pattern edges join vertices below `n`.
proof fn lemma_pattern_edge_bounds<T>(a: &CscMatrix<T>, u: usize, w: usize)
    requires
        a.cols_ok(),
        rows_bounded(a.row_idx@, a.n as int),
        pattern_edge(a, u, w),
    ensures
        u < a.n,
        w < a.n,
{
    if stores(a, u as int, w as int) {
        let q = choose|q: int| #[trigger] a.entry_in_col(w as int, q) && a.row_idx@[q] == u;
        assert(a.col_ptr@[0] <= a.col_ptr@[w as int]);
        assert(a.col_ptr@[w as int + 1] <= a.col_ptr@[a.n as int]);
    } else {
        let q = choose|q: int| #[trigger] a.entry_in_col(u as int, q) && a.row_idx@[q] == w;
        assert(a.col_ptr@[0] <= a.col_ptr@[u as int]);
        assert(a.col_ptr@[u as int + 1] <= a.col_ptr@[a.n as int]);
    }
}

/// Elimination-graph edges are symmetric and join distinct vertices below `n`
/// that have not been eliminated.
proof fn lemma_elim_edge<T>(a: &CscMatrix<T>, order: Seq<usize>, u: usize, w: usize)
    requires
        a.cols_ok(),
        rows_bounded(a.row_idx@, a.n as int),
    ensures
        elim_edge(a, order, u, w) == elim_edge(a, order, w, u),
        elim_edge(a, order, u, w) ==> u != w && u < a.n && w < a.n && !order.contains(u) && !order.contains(w),
    decreases order.len(),
{
    if order.len() == 0 {
        if pattern_edge(a, u, w) {
            lemma_pattern_edge_bounds(a, u, w);
        }
    } else {
        let pre = order.drop_last();
        let v = order.last();
        lemma_elim_edge(a, pre, u, w);
        lemma_elim_edge(a, pre, u, v);
        lemma_elim_edge(a, pre, w, v);
        if elim_edge(a, order, u, w) {
            assert forall|i: int| 0 <= i < order.len() implies order[i] != u && order[i] != w by {
                if i < order.len() - 1 {
                    assert(order[i] == pre[i]);
                }
            }
        }
    }
}

/// One more elimination, unfolded.
proof fn lemma_elim_edge_push<T>(a: &CscMatrix<T>, pre: Seq<usize>, v: usize, u: usize, w: usize)
    ensures
        elim_edge(a, pre.push(v), u, w) == (u != v && w != v && (elim_edge(a, pre, u, w)
            || (u != w && elim_edge(a, pre, u, v) && elim_edge(a, pre, w, v)))),
{
    assert(pre.push(v).drop_last() =~= pre);
}

/// Every listed vertex is below `n`.
pub open spec fn vertices_below(list: Seq<usize>, n: int) -> bool {
    forall|q: int| 0 <= q < list.len() ==> #[trigger] list[q] < n
}

/// The distinct vertices of `list` that remain in `alive` and differ from
/// `skip`, in order of first occurrence. `mark` is scratch space, all `false`
/// on entry and exit.
fn live_neighbours(list: &Vec<usize>, alive: &Vec<bool>, skip: usize, mark: &mut Vec<bool>) -> (out: Vec<usize>)
    requires
        vertices_below(list@, alive@.len() as int),
        old(mark)@.len() == alive@.len(),
        forall|w: int| 0 <= w < old(mark)@.len() ==> !(#[trigger] old(mark)@[w]),
    ensures
        final(mark)@.len() == alive@.len(),
        forall|w: int| 0 <= w < final(mark)@.len() ==> !(#[trigger] final(mark)@[w]),
        vertices_below(out@, alive@.len() as int),
        out@.len() <= alive@.len(),
        out@.no_duplicates(),
        forall|w: usize| #[trigger] out@.contains(w) <==> (list@.contains(w) && w < alive@.len() && alive@[w as int] && w != skip),
{
    let n = alive.len();
    let mut out: Vec<usize> = Vec::new();
    let len = list.len();
    let mut q: usize = 0;
    proof {
        lemma_count_true_none(mark@);
    }
    while q < len
        invariant
            len == list@.len(),
            q <= len,
            n == alive@.len(),
            mark@.len() == n,
            vertices_below(list@, n as int),
            vertices_below(out@, n as int),
            count_true(mark@) == out@.len(),
            out@.no_duplicates(),
            forall|w: usize| w < n ==> (#[trigger] mark@[w as int] <==> out@.contains(w)),
            forall|w: usize| #[trigger] out@.contains(w) <==>
                ((exists|k: int| 0 <= k < q && list@[k] == w) && w < n && alive@[w as int] && w != skip),
        decreases len - q,
    {
        let w = list[q];
        let ghost old_out = out@;
        let ghost old_mark = mark@;
        if alive[w] && w != skip && !mark[w] {
            proof {
                lemma_count_true_update(mark@, w as int, true);
            }
            mark.set(w, true);
            out.push(w);
            assert(out@.no_duplicates()) by {
                assert forall|i: int, j: int| 0 <= i < out@.len() && 0 <= j < out@.len() && i != j implies out@[i] != out@[j] by {
                    if i == old_out.len() {
                        assert(old_out.contains(out@[j]));
                    } else if j == old_out.len() {
                        assert(old_out.contains(out@[i]));
                    }
                }
            }
        }
        assert forall|x: usize| #[trigger] out@.contains(x) <==>
            ((exists|k: int| 0 <= k < q + 1 && list@[k] == x) && x < n && alive@[x as int] && x != skip) by {
            if exists|k: int| 0 <= k < q + 1 && list@[k] == x {
                let k = choose|k: int| 0 <= k < q + 1 && list@[k] == x;
                if k < q {
                    assert(exists|k: int| 0 <= k < q && list@[k] == x);
                }
            }
            if exists|k: int| 0 <= k < q && list@[k] == x {
                let k = choose|k: int| 0 <= k < q && list@[k] == x;
                assert(0 <= k < q + 1 && list@[k] == x);
            }
            assert(list@[q as int] == w);
        }
        assert forall|x: usize| x < n implies (#[trigger] mark@[x as int] <==> out@.contains(x)) by {
            assert(old_mark[x as int] <==> old_out.contains(x));
        }
        q = q + 1;
    }
    proof {
        lemma_count_true_le(mark@);
        assert forall|x: usize| #[trigger] out@.contains(x) <==> (list@.contains(x) && x < n && alive@[x as int] && x != skip) by {
            if list@.contains(x) {
                let k = choose|k: int| 0 <= k < list@.len() && list@[k] == x;
                assert(0 <= k < q && list@[k] == x);
            }
        }
    }
    let olen = out.len();
    let mut k: usize = 0;
    while k < olen
        invariant
            olen == out@.len(),
            k <= olen,
            n == alive@.len(),
            mark@.len() == n,
            vertices_below(out@, n as int),
            forall|w: int| 0 <= w < n && #[trigger] mark@[w] ==> exists|kk: int| k <= kk < out@.len() && out@[kk] == w,
        decreases olen - k,
    {
        let w = out[k];
        mark.set(w, false);
        k = k + 1;
    }
    out
}

/// `a` stores `(i, j)` at a position below `bound`.
spec fn stored_below<T>(a: &CscMatrix<T>, i: usize, j: usize, bound: int) -> bool {
    exists|q: int| #[trigger] a.entry_in_col(j as int, q) && a.row_idx@[q] == i && q < bound
}

/// Taking in the entry at position `p` of column `j`.
proof fn lemma_stored_below_step<T>(a: &CscMatrix<T>, j: usize, p: int, x: usize, y: usize)
    requires
        a.cols_ok(),
        a.entry_in_col(j as int, p),
    ensures
        stored_below(a, x, y, p + 1) == (stored_below(a, x, y, p) || (x == a.row_idx@[p] && y == j)),
{
    if stored_below(a, x, y, p + 1) {
        let q = choose|q: int| #[trigger] a.entry_in_col(y as int, q) && a.row_idx@[q] == x && q < p + 1;
        if q == p {
            lemma_in_col_unique(a.col_ptr@, a.n as int, a.row_idx@.len() as int, y as int, j as int, p);
        } else {
            assert(a.entry_in_col(y as int, q) && a.row_idx@[q] == x && q < p);
        }
    }
    if x == a.row_idx@[p] && y == j {
        assert(a.entry_in_col(y as int, p) && a.row_idx@[p] == x && p < p + 1);
    }
    if stored_below(a, x, y, p) {
        let q = choose|q: int| #[trigger] a.entry_in_col(y as int, q) && a.row_idx@[q] == x && q < p;
        assert(a.entry_in_col(y as int, q) && a.row_idx@[q] == x && q < p + 1);
    }
}

/// Below position 0 nothing is stored; below the end, everything.
proof fn lemma_stored_below_ends<T>(a: &CscMatrix<T>, x: usize, y: usize)
    requires
        a.cols_ok(),
    ensures
        !stored_below(a, x, y, 0),
        stored_below(a, x, y, a.row_idx@.len() as int) == stores(a, x as int, y as int),
{
    if stored_below(a, x, y, 0) {
        let q = choose|q: int| #[trigger] a.entry_in_col(y as int, q) && a.row_idx@[q] == x && q < 0;
        assert(a.col_ptr@[0] <= a.col_ptr@[y as int]);
    }
    if stores(a, x as int, y as int) {
        let q = choose|q: int| #[trigger] a.entry_in_col(y as int, q) && a.row_idx@[q] == x;
        assert(a.col_ptr@[y as int + 1] <= a.col_ptr@[a.n as int]);
        assert(a.entry_in_col(y as int, q) && a.row_idx@[q] == x && q < a.row_idx@.len());
    }
}

/// Neighbour lists of the symmetric pattern of `a` without self loops; a
/// neighbour may be listed more than once.
fn pattern_lists<T>(a: &CscMatrix<T>) -> (adj: Vec<Vec<usize>>)
    requires
        a.cols_ok(),
        rows_bounded(a.row_idx@, a.n as int),
    ensures
        adj@.len() == a.n,
        forall|v: int| 0 <= v < a.n ==> vertices_below(#[trigger] adj@[v]@, a.n as int),
        forall|u: usize, w: usize| #![trigger adj@[u as int]@.contains(w)]
            u < a.n ==> (adj@[u as int]@.contains(w) <==> pattern_edge(a, u, w)),
{
    let n = a.n;
    let mut adj: Vec<Vec<usize>> = Vec::new();
    for i in 0..n
        invariant
            adj@.len() == i,
            forall|v: int| 0 <= v < i ==> (#[trigger] adj@[v])@.len() == 0,
    {
        adj.push(Vec::new());
    }
    proof {
        assert forall|u: usize, w: usize| #![trigger adj@[u as int]@.contains(w)] u < n implies
            (adj@[u as int]@.contains(w) <==> (u != w && (stored_below(a, u, w, a.col_ptr@[0] as int)
                || stored_below(a, w, u, a.col_ptr@[0] as int)))) by {
            lemma_stored_below_ends(a, u, w);
            lemma_stored_below_ends(a, w, u);
        }
    }
    let mut j: usize = 0;
    while j < n
        invariant
            a.cols_ok(),
            rows_bounded(a.row_idx@, a.n as int),
            n == a.n,
            j <= n,
            adj@.len() == n,
            forall|v: int| 0 <= v < n ==> vertices_below(#[trigger] adj@[v]@, n as int),
            forall|u: usize, w: usize| #![trigger adj@[u as int]@.contains(w)] u < n ==>
                (adj@[u as int]@.contains(w) <==> (u != w && (stored_below(a, u, w, a.col_ptr@[j as int] as int)
                    || stored_below(a, w, u, a.col_ptr@[j as int] as int)))),
        decreases n - j,
    {
        let end = a.col_ptr[j + 1];
        let mut p = a.col_ptr[j];
        assert(a.col_ptr@[j as int] <= a.col_ptr@[j + 1]);
        assert(a.col_ptr@[j + 1] <= a.col_ptr@[n as int]);
        while p < end
            invariant
                a.cols_ok(),
                rows_bounded(a.row_idx@, a.n as int),
                n == a.n,
                j < n,
                end == a.col_ptr@[j + 1],
                a.col_ptr@[j as int] <= p <= end,
                end <= a.row_idx@.len(),
                adj@.len() == n,
                forall|v: int| 0 <= v < n ==> vertices_below(#[trigger] adj@[v]@, n as int),
                forall|u: usize, w: usize| #![trigger adj@[u as int]@.contains(w)] u < n ==>
                    (adj@[u as int]@.contains(w) <==> (u != w && (stored_below(a, u, w, p as int)
                        || stored_below(a, w, u, p as int)))),
            decreases end - p,
        {
            let i = a.row_idx[p];
            assert(a.entry_in_col(j as int, p as int));
            let ghost adj0 = adj@;
            if i != j {
                adj[i].push(j);
                let ghost adj1 = adj@;
                adj[j].push(i);
                assert forall|v: int| 0 <= v < n implies vertices_below(#[trigger] adj@[v]@, n as int) by {
                    assert(vertices_below(adj0[v]@, n as int));
                    if v == j as int {
                        assert(adj@[v]@ == adj1[v]@.push(i));
                        assert(adj1[v] == adj0[v]);
                    } else if v == i as int {
                        assert(adj@[v] == adj1[v]);
                        assert(adj1[v]@ == adj0[v]@.push(j));
                    } else {
                        assert(adj@[v] == adj0[v]);
                    }
                }
                assert forall|u: usize, w: usize| #![trigger adj@[u as int]@.contains(w)] u < n implies
                    (adj@[u as int]@.contains(w) <==> (u != w && (stored_below(a, u, w, p + 1)
                        || stored_below(a, w, u, p + 1)))) by {
                    lemma_stored_below_step(a, j, p as int, u, w);
                    lemma_stored_below_step(a, j, p as int, w, u);
                    assert(adj0[u as int]@.contains(w) <==> (u != w && (stored_below(a, u, w, p as int)
                        || stored_below(a, w, u, p as int))));
                    if u == j {
                        assert(adj@[u as int]@ == adj1[u as int]@.push(i));
                        assert(adj1[u as int] == adj0[u as int]);
                    } else if u == i {
                        assert(adj@[u as int] == adj1[u as int]);
                        assert(adj1[u as int]@ == adj0[u as int]@.push(j));
                    } else {
                        assert(adj@[u as int] == adj0[u as int]);
                    }
                }
            } else {
                assert forall|u: usize, w: usize| #![trigger adj@[u as int]@.contains(w)] u < n implies
                    (adj@[u as int]@.contains(w) <==> (u != w && (stored_below(a, u, w, p + 1)
                        || stored_below(a, w, u, p + 1)))) by {
                    lemma_stored_below_step(a, j, p as int, u, w);
                    lemma_stored_below_step(a, j, p as int, w, u);
                }
            }
            p = p + 1;
        }
        j = j + 1;
    }
    proof {
        assert forall|u: usize, w: usize| #![trigger adj@[u as int]@.contains(w)] u < n implies
            (adj@[u as int]@.contains(w) <==> pattern_edge(a, u, w)) by {
            lemma_stored_below_ends(a, u, w);
            lemma_stored_below_ends(a, w, u);
        }
    }
    adj
}

/// Whether `v` occurs in `list`.
fn list_contains(list: &Vec<usize>, v: usize) -> (r: bool)
    ensures
        r == list@.contains(v),
{
    let mut q: usize = 0;
    while q < list.len()
        invariant
            q <= list@.len(),
            forall|k: int| 0 <= k < q ==> list@[k] != v,
        decreases list@.len() - q,
    {
        if list[q] == v {
            return true;
        }
        q = q + 1;
    }
    false
}

/// The remaining vertex of smallest degree, the lowest index among ties.
fn select_min_degree(alive: &Vec<bool>, degree: &Vec<usize>) -> (best: usize)
    requires
        alive@.len() == degree@.len(),
        exists|v: int| 0 <= v < alive@.len() && alive@[v],
        forall|v: int| 0 <= v < degree@.len() ==> #[trigger] degree@[v] < usize::MAX,
    ensures
        best < alive@.len(),
        alive@[best as int],
        forall|w: int| 0 <= w < alive@.len() && #[trigger] alive@[w] ==> degree@[best as int] <= degree@[w],
        forall|w: int| 0 <= w < best && #[trigger] alive@[w] ==> degree@[best as int] < degree@[w],
{
    let n = alive.len();
    let mut best = usize::MAX;
    let mut best_deg = usize::MAX;
    let mut v: usize = 0;
    while v < n
        invariant
            n == alive@.len(),
            n == degree@.len(),
            v <= n,
            forall|w: int| 0 <= w < n ==> #[trigger] degree@[w] < usize::MAX,
            best == usize::MAX ==> best_deg == usize::MAX,
            best != usize::MAX ==> best < v && alive@[best as int] && degree@[best as int] == best_deg,
            forall|w: int| 0 <= w < v && #[trigger] alive@[w] ==>
                best != usize::MAX && best_deg <= degree@[w] && (w < best ==> best_deg < degree@[w]),
        decreases n - v,
    {
        if alive[v] && degree[v] < best_deg {
            best_deg = degree[v];
            best = v;
        }
        v = v + 1;
    }
    best
}

/// Among the remaining vertices, each list holds `w` exactly when the list
/// of `w` holds the vertex.
spec fn symmetric_on(adj: Seq<Vec<usize>>, alive: Seq<bool>) -> bool {
    forall|v: usize, w: usize| #![trigger adj[v as int]@.contains(w), adj[w as int]@.contains(v)]
        v < alive.len() && w < alive.len() && alive[v as int] && alive[w as int] ==>
            (adj[v as int]@.contains(w) <==> adj[w as int]@.contains(v))
}

/// Joins the vertices of `neigh` pairwise: afterwards the list of each holds
/// all the others. Lists only grow, and only lists of `neigh` gain vertices of `neigh`.
fn join_pairwise(adj: &mut Vec<Vec<usize>>, neigh: &Vec<usize>, alive: &Vec<bool>)
    requires
        old(adj)@.len() == alive@.len(),
        forall|v: int| 0 <= v < alive@.len() ==> vertices_below(#[trigger] old(adj)@[v]@, alive@.len() as int),
        vertices_below(neigh@, alive@.len() as int),
        neigh@.no_duplicates(),
        forall|k: int| 0 <= k < neigh@.len() ==> alive@[#[trigger] neigh@[k] as int],
        symmetric_on(old(adj)@, alive@),
    ensures
        final(adj)@.len() == alive@.len(),
        forall|v: int| 0 <= v < alive@.len() ==> vertices_below(#[trigger] final(adj)@[v]@, alive@.len() as int),
        forall|v: usize, w: usize| #![trigger old(adj)@[v as int]@.contains(w)] #![trigger final(adj)@[v as int]@.contains(w)]
            v < alive@.len() ==> (final(adj)@[v as int]@.contains(w) <==>
                (old(adj)@[v as int]@.contains(w) || (neigh@.contains(v) && neigh@.contains(w) && v != w))),
{
    let n = alive.len();
    let nlen = neigh.len();
    let ghost adj0 = adj@;
    let mut ii: usize = 0;
    while ii < nlen
        invariant
            n == alive@.len(),
            nlen == neigh@.len(),
            ii <= nlen,
            adj@.len() == n,
            vertices_below(neigh@, n as int),
            neigh@.no_duplicates(),
            forall|k: int| 0 <= k < neigh@.len() ==> alive@[#[trigger] neigh@[k] as int],
            forall|v: int| 0 <= v < n ==> vertices_below(#[trigger] adj@[v]@, n as int),
            symmetric_on(adj@, alive@),
            forall|v: usize, w: usize| #![trigger adj0[v as int]@.contains(w)] #![trigger adj@[v as int]@.contains(w)]
                v < n ==> (adj0[v as int]@.contains(w) ==> adj@[v as int]@.contains(w)),
            forall|v: usize, w: usize| #![trigger adj@[v as int]@.contains(w)]
                v < n && adj@[v as int]@.contains(w) ==> adj0[v as int]@.contains(w) || (neigh@.contains(v) && neigh@.contains(w) && v != w),
            forall|i1: int, j1: int| #![trigger neigh@[i1], neigh@[j1]] 0 <= i1 < ii && i1 < j1 < nlen ==>
                adj@[neigh@[i1] as int]@.contains(neigh@[j1]) && adj@[neigh@[j1] as int]@.contains(neigh@[i1]),
        decreases nlen - ii,
    {
        let u = neigh[ii];
        let mut jj: usize = ii + 1;
        while jj < nlen
            invariant
                n == alive@.len(),
                nlen == neigh@.len(),
                ii < nlen,
                u == neigh@[ii as int],
                ii < jj <= nlen,
                adj@.len() == n,
                vertices_below(neigh@, n as int),
                neigh@.no_duplicates(),
                forall|k: int| 0 <= k < neigh@.len() ==> alive@[#[trigger] neigh@[k] as int],
                forall|v: int| 0 <= v < n ==> vertices_below(#[trigger] adj@[v]@, n as int),
                symmetric_on(adj@, alive@),
                forall|v: usize, w: usize| #![trigger adj0[v as int]@.contains(w)] #![trigger adj@[v as int]@.contains(w)]
                    v < n ==> (adj0[v as int]@.contains(w) ==> adj@[v as int]@.contains(w)),
                forall|v: usize, w: usize| #![trigger adj@[v as int]@.contains(w)]
                    v < n && adj@[v as int]@.contains(w) ==> adj0[v as int]@.contains(w) || (neigh@.contains(v) && neigh@.contains(w) && v != w),
                forall|i1: int, j1: int| #![trigger neigh@[i1], neigh@[j1]]
                    ((0 <= i1 < ii && i1 < j1 < nlen) || (i1 == ii && ii < j1 < jj)) ==>
                    adj@[neigh@[i1] as int]@.contains(neigh@[j1]) && adj@[neigh@[j1] as int]@.contains(neigh@[i1]),
            decreases nlen - jj,
        {
            let w = neigh[jj];
            assert(u != w);
            assert(neigh@.contains(u) && neigh@.contains(w)) by {
                assert(neigh@[ii as int] == u && neigh@[jj as int] == w);
            }
            if !list_contains(&adj[u], w) {
                let ghost adjA = adj@;
                adj[u].push(w);
                let ghost adjB = adj@;
                adj[w].push(u);
                assert(adj@[u as int]@ == adjA[u as int]@.push(w));
                assert(adj@[w as int]@ == adjA[w as int]@.push(u));
                assert forall|v: int| 0 <= v < n && v != u as int && v != w as int implies #[trigger] adj@[v] == adjA[v] by {}
                assert forall|v: int| 0 <= v < n implies vertices_below(#[trigger] adj@[v]@, n as int) by {
                    assert(vertices_below(adjA[v]@, n as int));
                }
            } else {
                assert(alive@[u as int] && alive@[w as int]);
                assert(adj@[u as int]@.contains(w));
                assert(adj@[w as int]@.contains(u));
            }
            jj = jj + 1;
        }
        ii = ii + 1;
    }
    proof {
        assert forall|v: usize, w: usize| v < n && neigh@.contains(v) && neigh@.contains(w) && v != w
            implies #[trigger] adj@[v as int]@.contains(w) by {
            let i1 = choose|i1: int| 0 <= i1 < nlen && neigh@[i1] == v;
            let j1 = choose|j1: int| 0 <= j1 < nlen && neigh@[j1] == w;
            if i1 < j1 {
                assert(adj@[neigh@[i1] as int]@.contains(neigh@[j1]));
            } else {
                assert(adj@[neigh@[j1] as int]@.contains(neigh@[i1]));
            }
        }
    }
}

/// Replaces the list of every vertex of `neigh` by its distinct vertices that
/// remain in `alive` and differ from `skip`, and sets its degree to their number.
fn refresh_lists(
    adj: &mut Vec<Vec<usize>>,
    degree: &mut Vec<usize>,
    neigh: &Vec<usize>,
    alive: &Vec<bool>,
    skip: usize,
    mark: &mut Vec<bool>,
)
    requires
        old(adj)@.len() == alive@.len(),
        old(degree)@.len() == alive@.len(),
        old(mark)@.len() == alive@.len(),
        forall|w: int| 0 <= w < alive@.len() ==> !(#[trigger] old(mark)@[w]),
        forall|v: int| 0 <= v < alive@.len() ==> vertices_below(#[trigger] old(adj)@[v]@, alive@.len() as int),
        forall|v: int| 0 <= v < alive@.len() ==> #[trigger] old(degree)@[v] <= alive@.len(),
        vertices_below(neigh@, alive@.len() as int),
        neigh@.no_duplicates(),
    ensures
        final(adj)@.len() == alive@.len(),
        final(degree)@.len() == alive@.len(),
        final(mark)@.len() == alive@.len(),
        forall|w: int| 0 <= w < alive@.len() ==> !(#[trigger] final(mark)@[w]),
        forall|v: int| 0 <= v < alive@.len() ==> vertices_below(#[trigger] final(adj)@[v]@, alive@.len() as int),
        forall|v: int| 0 <= v < alive@.len() ==> #[trigger] final(degree)@[v] <= alive@.len(),
        forall|v: usize| #![trigger final(adj)@[v as int]] #![trigger final(degree)@[v as int]]
            v < alive@.len() && !neigh@.contains(v) ==>
            final(adj)@[v as int] == old(adj)@[v as int] && final(degree)@[v as int] == old(degree)@[v as int],
        forall|u: usize| #![trigger final(adj)@[u as int]] #![trigger final(degree)@[u as int]]
            neigh@.contains(u) ==>
            final(adj)@[u as int]@.no_duplicates() && final(degree)@[u as int] == final(adj)@[u as int]@.len(),
        forall|u: usize, w: usize| #![trigger final(adj)@[u as int]@.contains(w)]
            neigh@.contains(u) ==> (final(adj)@[u as int]@.contains(w) <==>
                (old(adj)@[u as int]@.contains(w) && w < alive@.len() && alive@[w as int] && w != skip)),
{
    let n = alive.len();
    let nlen = neigh.len();
    let ghost adj0 = adj@;
    let ghost degree0 = degree@;
    let mut k: usize = 0;
    while k < nlen
        invariant
            n == alive@.len(),
            nlen == neigh@.len(),
            k <= nlen,
            adj@.len() == n,
            degree@.len() == n,
            mark@.len() == n,
            forall|w: int| 0 <= w < n ==> !(#[trigger] mark@[w]),
            forall|v: int| 0 <= v < n ==> vertices_below(#[trigger] adj@[v]@, n as int),
            forall|v: int| 0 <= v < n ==> #[trigger] degree@[v] <= n,
            vertices_below(neigh@, n as int),
            neigh@.no_duplicates(),
            forall|v: usize| #![trigger adj@[v as int]] #![trigger degree@[v as int]]
                v < n && !neigh@.subrange(0, k as int).contains(v) ==>
                adj@[v as int] == adj0[v as int] && degree@[v as int] == degree0[v as int],
            forall|u: usize| #![trigger adj@[u as int]] #![trigger degree@[u as int]]
                neigh@.subrange(0, k as int).contains(u) ==>
                adj@[u as int]@.no_duplicates() && degree@[u as int] == adj@[u as int]@.len(),
            forall|u: usize, w: usize| #![trigger adj@[u as int]@.contains(w)]
                neigh@.subrange(0, k as int).contains(u) ==> (adj@[u as int]@.contains(w) <==>
                    (adj0[u as int]@.contains(w) && w < n && alive@[w as int] && w != skip)),
        decreases nlen - k,
    {
        let u = neigh[k];
        let ghost adjA = adj@;
        let ghost degreeA = degree@;
        proof {
            assert(neigh@.subrange(0, k + 1) =~= neigh@.subrange(0, k as int).push(u));
            assert(!neigh@.subrange(0, k as int).contains(u)) by {
                if neigh@.subrange(0, k as int).contains(u) {
                    let i = choose|i: int| 0 <= i < k && neigh@.subrange(0, k as int)[i] == u;
                    assert(neigh@[i] == neigh@[k as int]);
                }
            }
            assert(adjA[u as int] == adj0[u as int]);
        }
        let list = live_neighbours(&adj[u], alive, skip, mark);
        let d = list.len();
        adj.set(u, list);
        degree.set(u, d);
        proof {
            assert forall|v: int| 0 <= v < n implies vertices_below(#[trigger] adj@[v]@, n as int) by {
                if v != u as int {
                    assert(adj@[v] == adjA[v]);
                }
            }
            assert forall|v: int| 0 <= v < n implies #[trigger] degree@[v] <= n by {
                if v != u as int {
                    assert(degree@[v] == degreeA[v]);
                }
            }
        }
        k = k + 1;
    }
    proof {
        assert(neigh@.subrange(0, nlen as int) =~= neigh@);
    }
}

/// The working state of the ordering once `order` has been eliminated:
/// `alive` marks the remaining vertices; the list of a remaining vertex holds,
/// among the remaining vertices, exactly its neighbours in the elimination
/// graph, and `degree` counts them.
spec fn graph_state<T>(a: &CscMatrix<T>, order: Seq<usize>, adj: Seq<Vec<usize>>, alive: Seq<bool>, degree: Seq<usize>) -> bool {
    let n = a.n as int;
    &&& adj.len() == n
    &&& alive.len() == n
    &&& degree.len() == n
    &&& forall|v: int| 0 <= v < n ==> vertices_below(#[trigger] adj[v]@, n)
    &&& forall|v: usize| #![trigger alive[v as int]] #![trigger order.contains(v)]
        v < n ==> (alive[v as int] <==> !order.contains(v))
    &&& forall|u: usize, w: usize| #![trigger adj[u as int]@.contains(w)] #![trigger elim_edge(a, order, u, w)]
        u < n && alive[u as int] ==> ((adj[u as int]@.contains(w) && w < n && alive[w as int]) <==> elim_edge(a, order, u, w))
    &&& forall|u: usize| u < n && alive[u as int] ==> #[trigger] degree[u as int] == elim_degree(a, order, u)
    &&& forall|v: int| 0 <= v < n ==> #[trigger] degree[v] <= n
}

/// Eliminates the remaining vertex `best`: drops it from the remaining
/// vertices, joins its remaining neighbours pairwise and refreshes their lists
/// and degrees.
fn eliminate<T>(
    a: &CscMatrix<T>,
    Ghost(order): Ghost<Seq<usize>>,
    best: usize,
    adj: &mut Vec<Vec<usize>>,
    alive: &mut Vec<bool>,
    degree: &mut Vec<usize>,
    mark: &mut Vec<bool>,
)
    requires
        a.cols_ok(),
        rows_bounded(a.row_idx@, a.n as int),
        graph_state(a, order, old(adj)@, old(alive)@, old(degree)@),
        best < a.n,
        old(alive)@[best as int],
        old(mark)@.len() == a.n,
        forall|w: int| 0 <= w < a.n ==> !(#[trigger] old(mark)@[w]),
    ensures
        graph_state(a, order.push(best), final(adj)@, final(alive)@, final(degree)@),
        final(alive)@ == old(alive)@.update(best as int, false),
        final(mark)@.len() == a.n,
        forall|w: int| 0 <= w < a.n ==> !(#[trigger] final(mark)@[w]),
{
    let n = a.n;
    let ghost adj0 = adj@;
    let ghost alive0 = alive@;
    let ghost degree0 = degree@;
    let ghost order1 = order.push(best);
    alive.set(best, false);
    let neigh = live_neighbours(&adj[best], alive, best, mark);
    proof {
        assert forall|w: usize| #[trigger] neigh@.contains(w) <==> elim_edge(a, order, best, w) by {
            lemma_elim_edge(a, order, best, w);
        }
        assert forall|k: int| 0 <= k < neigh@.len() implies alive@[#[trigger] neigh@[k] as int] by {
            assert(neigh@.contains(neigh@[k]));
        }
        assert(symmetric_on(adj@, alive@)) by {
            assert forall|v: usize, w: usize| #![trigger adj@[v as int]@.contains(w), adj@[w as int]@.contains(v)]
                v < n && w < n && alive@[v as int] && alive@[w as int] implies
                (adj@[v as int]@.contains(w) <==> adj@[w as int]@.contains(v)) by {
                lemma_elim_edge(a, order, v, w);
                assert(adj0[v as int]@.contains(w) && w < n && alive0[w as int] <==> elim_edge(a, order, v, w));
                assert(adj0[w as int]@.contains(v) && v < n && alive0[v as int] <==> elim_edge(a, order, w, v));
            }
        }
    }
    join_pairwise(adj, &neigh, alive);
    let ghost adj1 = adj@;
    refresh_lists(adj, degree, &neigh, alive, best, mark);
    let ghost adj2 = adj@;
    adj.set(best, Vec::new());
    proof {
        assert forall|v: int| 0 <= v < n implies vertices_below(#[trigger] adj@[v]@, n as int) by {
            if v != best as int {
                assert(adj@[v] == adj2[v]);
            }
        }
        assert forall|v: usize| #![trigger alive@[v as int]] #![trigger order1.contains(v)]
            v < n implies (alive@[v as int] <==> !order1.contains(v)) by {
            assert(alive0[v as int] <==> !order.contains(v));
        }
        assert forall|u: usize, w: usize| #![trigger adj@[u as int]@.contains(w)] #![trigger elim_edge(a, order1, u, w)]
            u < n && alive@[u as int] implies
            ((adj@[u as int]@.contains(w) && w < n && alive@[w as int]) <==> elim_edge(a, order1, u, w)) by {
            lemma_after_elimination(a, order, best, u, w, adj0, adj1, adj2, alive0, neigh@);
        }
        assert forall|u: usize| u < n && alive@[u as int] implies #[trigger] degree@[u as int] == elim_degree(a, order1, u) by {
            assert(adj@[u as int] == adj2[u as int]);
            if neigh@.contains(u) {
                assert forall|w: usize| #[trigger] adj2[u as int]@.contains(w) <==> elim_edge(a, order1, u, w) by {
                    lemma_after_elimination(a, order, best, u, w, adj0, adj1, adj2, alive0, neigh@);
                    lemma_elim_edge(a, order1, u, w);
                }
                assert(adj2[u as int]@.to_set() =~= elim_neighbours(a, order1, u));
                adj2[u as int]@.unique_seq_to_set();
            } else {
                assert forall|w: usize| elim_edge(a, order, u, w) <==> #[trigger] elim_edge(a, order1, u, w) by {
                    lemma_elim_edge_push(a, order, best, u, w);
                    lemma_elim_edge(a, order, u, w);
                    lemma_elim_edge(a, order, u, best);
                    lemma_elim_edge(a, order, w, best);
                }
                assert(elim_neighbours(a, order, u) =~= elim_neighbours(a, order1, u));
            }
        }
    }
}

/// What the lists hold after one elimination, vertex by vertex.
proof fn lemma_after_elimination<T>(
    a: &CscMatrix<T>,
    order: Seq<usize>,
    best: usize,
    u: usize,
    w: usize,
    adj0: Seq<Vec<usize>>,
    adj1: Seq<Vec<usize>>,
    adj2: Seq<Vec<usize>>,
    alive0: Seq<bool>,
    neigh: Seq<usize>,
)
    requires
        a.cols_ok(),
        rows_bounded(a.row_idx@, a.n as int),
        adj0.len() == a.n,
        alive0.len() == a.n,
        forall|v: usize| #![trigger alive0[v as int]] v < a.n ==> (alive0[v as int] <==> !order.contains(v)),
        forall|x: usize, y: usize| #![trigger adj0[x as int]@.contains(y)] #![trigger elim_edge(a, order, x, y)]
            x < a.n && alive0[x as int] ==> ((adj0[x as int]@.contains(y) && y < a.n && alive0[y as int]) <==> elim_edge(a, order, x, y)),
        best < a.n,
        alive0[best as int],
        forall|x: usize| #[trigger] neigh.contains(x) <==> elim_edge(a, order, best, x),
        forall|x: usize, y: usize| #![trigger adj1[x as int]@.contains(y)]
            x < a.n ==> (adj1[x as int]@.contains(y) <==> (adj0[x as int]@.contains(y) || (neigh.contains(x) && neigh.contains(y) && x != y))),
        forall|x: usize| #![trigger adj2[x as int]] x < a.n && !neigh.contains(x) ==> adj2[x as int] == adj1[x as int],
        forall|x: usize, y: usize| #![trigger adj2[x as int]@.contains(y)]
            neigh.contains(x) ==> (adj2[x as int]@.contains(y) <==>
                (adj1[x as int]@.contains(y) && y < a.n && alive0.update(best as int, false)[y as int] && y != best)),
        u < a.n,
        u != best,
        alive0[u as int],
    ensures
        (adj2[u as int]@.contains(w) && w < a.n && alive0.update(best as int, false)[w as int])
            <==> elim_edge(a, order.push(best), u, w),
{
    lemma_elim_edge_push(a, order, best, u, w);
    lemma_elim_edge(a, order, u, w);
    lemma_elim_edge(a, order, u, best);
    lemma_elim_edge(a, order, w, best);
    lemma_elim_edge(a, order, best, u);
    lemma_elim_edge(a, order, best, w);
    if w < a.n {
        assert(adj0[u as int]@.contains(w) && w < a.n && alive0[w as int] <==> elim_edge(a, order, u, w));
    }
    if neigh.contains(u) {
        assert(adj2[u as int]@.contains(w) <==> (adj1[u as int]@.contains(w) && w < a.n
            && alive0.update(best as int, false)[w as int] && w != best));
        assert(adj1[u as int]@.contains(w) <==> (adj0[u as int]@.contains(w) || (neigh.contains(w) && u != w)));
    } else {
        assert(adj2[u as int] == adj1[u as int]);
        assert(adj1[u as int]@.contains(w) <==> adj0[u as int]@.contains(w));
    }
}

/// Minimum-degree ordering of the symmetric pattern whose upper triangle is
/// stored in `a`: repeatedly eliminate the remaining vertex of smallest degree
/// in the elimination graph (lowest index on ties) and join its remaining
/// neighbours pairwise.
pub fn order_upper<T>(a: &CscMatrix<T>) -> (perm: Vec<usize>)
    requires
        a.cols_ok(),
        rows_bounded(a.row_idx@, a.n as int),
    ensures
        is_permutation(perm@, a.n as int),
        is_min_degree_order(a, perm@),
{
    let n = a.n;
    let ncp = a.col_ptr.len();
    assert(n < usize::MAX);
    if n == 0 {
        return Vec::new();
    }
    let mut adj = pattern_lists(a);
    let ghost adjp = adj@;
    let mut alive: Vec<bool> = Vec::new();
    let mut mark: Vec<bool> = Vec::new();
    let mut degree: Vec<usize> = Vec::new();
    for i in 0..n
        invariant
            alive@.len() == i,
            mark@.len() == i,
            degree@.len() == i,
            forall|v: int| 0 <= v < i ==> #[trigger] alive@[v],
            forall|v: int| 0 <= v < i ==> !(#[trigger] mark@[v]),
            forall|v: int| 0 <= v < i ==> #[trigger] degree@[v] == 0,
    {
        alive.push(true);
        mark.push(false);
        degree.push(0);
    }
    let ghost empty = Seq::<usize>::empty();
    // Distinct neighbour lists and their degrees.
    let mut i: usize = 0;
    while i < n
        invariant
            a.cols_ok(),
            rows_bounded(a.row_idx@, a.n as int),
            n == a.n,
            i <= n,
            empty == Seq::<usize>::empty(),
            adj@.len() == n,
            alive@.len() == n,
            mark@.len() == n,
            degree@.len() == n,
            forall|v: int| 0 <= v < n ==> vertices_below(#[trigger] adj@[v]@, n as int),
            forall|v: int| 0 <= v < n ==> #[trigger] alive@[v],
            forall|v: int| 0 <= v < n ==> !(#[trigger] mark@[v]),
            forall|v: int| 0 <= v < n ==> #[trigger] degree@[v] <= n,
            forall|v: int| i <= v < n ==> #[trigger] adj@[v] == adjp[v],
            forall|u: usize, w: usize| #![trigger adjp[u as int]@.contains(w)]
                u < n ==> (adjp[u as int]@.contains(w) <==> pattern_edge(a, u, w)),
            forall|u: usize, w: usize| #![trigger adj@[u as int]@.contains(w)]
                u < i ==> (adj@[u as int]@.contains(w) <==> pattern_edge(a, u, w)),
            forall|u: usize| u < i ==> #[trigger] degree@[u as int] == elim_degree(a, empty, u),
        decreases n - i,
    {
        let list = live_neighbours(&adj[i], &alive, n, &mut mark);
        let d = list.len();
        let ghost adj0 = adj@;
        let ghost degree0 = degree@;
        proof {
            assert(adj0[i as int] == adjp[i as int]);
            assert forall|w: usize| #[trigger] list@.contains(w) <==> elim_edge(a, empty, i, w) by {
                if pattern_edge(a, i, w) {
                    lemma_pattern_edge_bounds(a, i, w);
                }
                assert(adjp[i as int]@.contains(w) <==> pattern_edge(a, i, w));
                assert(elim_edge(a, empty, i, w) == pattern_edge(a, i, w));
                if w < n {
                    assert(alive@[w as int]);
                }
            }
            assert(list@.to_set() =~= elim_neighbours(a, empty, i));
            list@.unique_seq_to_set();
        }
        adj.set(i, list);
        degree.set(i, d);
        proof {
            assert forall|v: int| 0 <= v < n implies vertices_below(#[trigger] adj@[v]@, n as int) by {
                if v != i as int {
                    assert(adj@[v] == adj0[v]);
                }
            }
            assert forall|v: int| 0 <= v < n implies #[trigger] degree@[v] <= n by {
                if v != i as int {
                    assert(degree@[v] == degree0[v]);
                }
            }
            assert forall|u: usize, w: usize| #![trigger adj@[u as int]@.contains(w)]
                u < i + 1 implies (adj@[u as int]@.contains(w) <==> pattern_edge(a, u, w)) by {
                if u != i {
                    assert(adj@[u as int] == adj0[u as int]);
                    assert(adj0[u as int]@.contains(w) <==> pattern_edge(a, u, w));
                }
            }
            assert forall|u: usize| u < i + 1 implies #[trigger] degree@[u as int] == elim_degree(a, empty, u) by {
                if u != i {
                    assert(degree@[u as int] == degree0[u as int]);
                }
            }
        }
        i = i + 1;
    }
    proof {
        assert forall|u: usize, w: usize| #![trigger adj@[u as int]@.contains(w)] #![trigger elim_edge(a, empty, u, w)]
            u < n && alive@[u as int] implies
            ((adj@[u as int]@.contains(w) && w < n && alive@[w as int]) <==> elim_edge(a, empty, u, w)) by {
            if pattern_edge(a, u, w) {
                lemma_pattern_edge_bounds(a, u, w);
            }
        }
        assert(graph_state(a, empty, adj@, alive@, degree@));
        lemma_count_true_all(alive@);
    }
    let mut perm: Vec<usize> = Vec::new();
    assert(perm@ =~= empty);
    let mut step: usize = 0;
    while step < n
        invariant
            a.cols_ok(),
            rows_bounded(a.row_idx@, a.n as int),
            n == a.n,
            n < usize::MAX,
            step <= n,
            perm@.len() == step,
            graph_state(a, perm@, adj@, alive@, degree@),
            mark@.len() == n,
            forall|v: int| 0 <= v < n ==> !(#[trigger] mark@[v]),
            count_true(alive@) == n - step,
            forall|k: int| 0 <= k < step ==> #[trigger] perm@[k] < n,
            forall|x: int, y: int| #![trigger perm@[x], perm@[y]] 0 <= x < step && 0 <= y < step && x != y ==> perm@[x] != perm@[y],
            is_min_degree_order(a, perm@),
        decreases n - step,
    {
        proof {
            lemma_count_true_pos(alive@);
        }
        let best = select_min_degree(&alive, &degree);
        proof {
            assert forall|w: usize| w < n && !perm@.contains(w) implies elim_degree(a, perm@, best) <= #[trigger] elim_degree(a, perm@, w) by {
                assert(alive@[w as int]);
                assert(degree@[w as int] == elim_degree(a, perm@, w));
            }
            assert forall|w: usize| w < best && !perm@.contains(w) implies elim_degree(a, perm@, best) < #[trigger] elim_degree(a, perm@, w) by {
                assert(alive@[w as int]);
                assert(degree@[w as int] == elim_degree(a, perm@, w));
            }
            assert(min_degree_choice(a, perm@, best));
        }
        let ghost alive0 = alive@;
        let ghost perm0 = perm@;
        eliminate(a, Ghost(perm@), best, &mut adj, &mut alive, &mut degree, &mut mark);
        perm.push(best);
        proof {
            lemma_count_true_update(alive0, best as int, false);
            assert(!perm0.contains(best));
            assert forall|x: int, y: int| #![trigger perm@[x], perm@[y]] 0 <= x < step + 1 && 0 <= y < step + 1 && x != y
                implies perm@[x] != perm@[y] by {
                if x == step as int {
                    assert(perm0.contains(perm@[y]));
                } else if y == step as int {
                    assert(perm0.contains(perm@[x]));
                }
            }
            assert forall|k: int| 0 <= k < perm@.len() implies min_degree_choice(a, perm@.take(k), #[trigger] perm@[k]) by {
                if k < step {
                    assert(perm@.take(k) =~= perm0.take(k));
                    assert(perm@[k] == perm0[k]);
                } else {
                    assert(perm@.take(k) =~= perm0);
                }
            }
        }
        step = step + 1;
    }
    perm
}

/// Matrices with the same pattern have the same elimination graphs.
proof fn lemma_elim_edge_pattern<T>(a1: &CscMatrix<T>, a2: &CscMatrix<T>, order: Seq<usize>, u: usize, w: usize)
    requires
        same_structure(a1, a2),
    ensures
        elim_edge(a1, order, u, w) == elim_edge(a2, order, u, w),
    decreases order.len(),
{
    if order.len() == 0 {
        assert(stores(a1, u as int, w as int) == stores(a2, u as int, w as int)) by {
            if stores(a1, u as int, w as int) {
                let q = choose|q: int| #[trigger] a1.entry_in_col(w as int, q) && a1.row_idx@[q] == u;
                assert(a2.entry_in_col(w as int, q));
            }
            if stores(a2, u as int, w as int) {
                let q = choose|q: int| #[trigger] a2.entry_in_col(w as int, q) && a2.row_idx@[q] == u;
                assert(a1.entry_in_col(w as int, q));
            }
        }
        assert(stores(a1, w as int, u as int) == stores(a2, w as int, u as int)) by {
            if stores(a1, w as int, u as int) {
                let q = choose|q: int| #[trigger] a1.entry_in_col(u as int, q) && a1.row_idx@[q] == w;
                assert(a2.entry_in_col(u as int, q));
            }
            if stores(a2, w as int, u as int) {
                let q = choose|q: int| #[trigger] a2.entry_in_col(u as int, q) && a2.row_idx@[q] == w;
                assert(a1.entry_in_col(u as int, q));
            }
        }
    } else {
        let pre = order.drop_last();
        let v = order.last();
        lemma_elim_edge_pattern(a1, a2, pre, u, w);
        lemma_elim_edge_pattern(a1, a2, pre, u, v);
        lemma_elim_edge_pattern(a1, a2, pre, w, v);
    }
}

/// Both orders agree on their first `k` vertices.
proof fn lemma_min_degree_prefix<T>(a1: &CscMatrix<T>, a2: &CscMatrix<T>, p1: Seq<usize>, p2: Seq<usize>, k: int)
    requires
        same_structure(a1, a2),
        is_min_degree_order(a1, p1),
        is_min_degree_order(a2, p2),
        p1.len() == p2.len(),
        0 <= k <= p1.len(),
    ensures
        p1.take(k) == p2.take(k),
    decreases k,
{
    if k > 0 {
        lemma_min_degree_prefix(a1, a2, p1, p2, k - 1);
        let pre = p1.take(k - 1);
        let v1 = p1[k - 1];
        let v2 = p2[k - 1];
        assert(min_degree_choice(a1, pre, v1));
        assert(min_degree_choice(a2, p2.take(k - 1), v2));
        assert forall|u: usize| #[trigger] elim_degree(a1, pre, u) == elim_degree(a2, pre, u) by {
            assert forall|w: usize| elim_edge(a1, pre, u, w) == elim_edge(a2, pre, u, w) by {
                lemma_elim_edge_pattern(a1, a2, pre, u, w);
            }
            assert(elim_neighbours(a1, pre, u) =~= elim_neighbours(a2, pre, u));
        }
        if v1 < v2 {
            assert(elim_degree(a2, pre, v2) < elim_degree(a2, pre, v1));
            assert(elim_degree(a1, pre, v1) <= elim_degree(a1, pre, v2));
        } else if v2 < v1 {
            assert(elim_degree(a1, pre, v1) < elim_degree(a1, pre, v2));
            assert(elim_degree(a2, pre, v2) <= elim_degree(a2, pre, v1));
        }
        assert(p1.take(k) =~= p1.take(k - 1).push(v1));
        assert(p2.take(k) =~= p2.take(k - 1).push(v2));
    }
}

/// The minimum-degree order is determined by the sparsity pattern alone: two
/// matrices with the same pattern have one and the same minimum-degree order,
/// so an ordering computed once serves every later matrix of that pattern.
pub proof fn lemma_min_degree_order_unique<T>(a1: &CscMatrix<T>, a2: &CscMatrix<T>, p1: Seq<usize>, p2: Seq<usize>)
    requires
        same_structure(a1, a2),
        is_min_degree_order(a1, p1),
        is_min_degree_order(a2, p2),
        p1.len() == p2.len(),
    ensures
        p1 == p2,
{
    lemma_min_degree_prefix(a1, a2, p1, p2, p1.len() as int);
    assert(p1 =~= p1.take(p1.len() as int));
    assert(p2 =~= p2.take(p2.len() as int));
}

} // verus!
