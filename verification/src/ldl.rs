//! Symbolic analysis for a simplicial LDL' factorization of a symmetric matrix
//! given by its upper triangle in CSC form: elimination tree and the number of
//! off-diagonal entries in each column of L.

use vstd::prelude::*;
use crate::csc::{CscMatrix, same_structure};

verus! {

/// Marker for a root of the elimination tree.
pub const UNKNOWN: i64 = -1;

/// Elimination tree and column counts of the factor L.
#[derive(Clone, Debug)]
pub struct LdlSymbolic {
    pub n: usize,
    pub etree: Vec<i64>,
    pub lnz: Vec<usize>,
    pub lp: Vec<usize>,
}

/// Why a symbolic analysis was refused.
#[derive(Clone, Debug)]
pub struct LdlError {
    pub msg: &'static str,
}

/// Following parent links from `i` reaches `j`.
#[verifier::opaque]
pub open spec fn is_ancestor(etree: Seq<i64>, i: int, j: int) -> bool
    decreases j - i,
{
    if i == j {
        true
    } else if i > j || i < 0 || i >= etree.len() {
        false
    } else {
        let p = etree[i] as int;
        i < p && p <= j && is_ancestor(etree, p, j)
    }
}

/// Parent links point strictly upwards and stay below `bound`.
pub open spec fn forest_below(etree: Seq<i64>, bound: int) -> bool {
    forall|x: int| 0 <= x < etree.len() ==> #[trigger] etree[x] == UNKNOWN || (x < etree[x] && etree[x] < bound)
}

/// Every vertex is its own ancestor.
proof fn lemma_ancestor_refl(etree: Seq<i64>, i: int)
    ensures
        is_ancestor(etree, i, i),
{
    reveal(is_ancestor);
}

/// One parent link followed by a path.
proof fn lemma_ancestor_step(etree: Seq<i64>, i: int, j: int)
    requires
        0 <= i < etree.len(),
        i < etree[i] <= j,
        is_ancestor(etree, etree[i] as int, j),
    ensures
        is_ancestor(etree, i, j),
{
    reveal(is_ancestor);
}

/// Ancestry survives giving a root a parent.
proof fn lemma_ancestor_grow(etree: Seq<i64>, x: int, v: i64, i: int, j: int)
    requires
        0 <= x < etree.len(),
        etree[x] == UNKNOWN,
        is_ancestor(etree, i, j),
    ensures
        is_ancestor(etree.update(x, v), i, j),
    decreases j - i,
{
    reveal(is_ancestor);
    if i != j {
        let p = etree[i] as int;
        assert(i != x);
        lemma_ancestor_grow(etree, x, v, p, j);
    }
}

/// Ancestry is transitive.
proof fn lemma_ancestor_trans(etree: Seq<i64>, a: int, b: int, c: int)
    requires
        is_ancestor(etree, a, b),
        is_ancestor(etree, b, c),
    ensures
        is_ancestor(etree, a, c),
    decreases b - a,
{
    reveal(is_ancestor);
    if a != b {
        lemma_ancestor_trans(etree, etree[a] as int, b, c);
    }
}

/// An ancestor is never below its descendant.
proof fn lemma_ancestor_order(etree: Seq<i64>, a: int, b: int)
    requires
        is_ancestor(etree, a, b),
    ensures
        a <= b,
    decreases b - a,
{
    reveal(is_ancestor);
}

/// Some column of `a` stores no entry.
pub open spec fn has_empty_column<T>(a: &CscMatrix<T>) -> bool {
    exists|j: int| 0 <= j < a.n && #[trigger] a.col_ptr@[j] == a.col_ptr@[j + 1]
}

/// Some stored entry of `a` lies below the diagonal.
pub open spec fn has_entry_below_diagonal<T>(a: &CscMatrix<T>) -> bool {
    exists|j: int, p: int| #[trigger] a.entry_in_col(j, p) && a.row_idx@[p] > j
}

/// The parent of `x` in `etree` is justified by an entry of `a`: some entry
/// `(k, etree[x])` has `x` among the ancestors of `k`.
pub open spec fn parent_justified<T>(a: &CscMatrix<T>, etree: Seq<i64>, x: int) -> bool {
    exists|p: int| #[trigger] a.entry_in_col(etree[x] as int, p) && is_ancestor(etree, a.row_idx@[p] as int, x)
}

/// Every parent link of `etree` is justified by an entry of `a`.
pub open spec fn parents_justified<T>(a: &CscMatrix<T>, etree: Seq<i64>) -> bool {
    forall|x: int| 0 <= x < etree.len() && #[trigger] etree[x] != UNKNOWN ==> parent_justified(a, etree, x)
}

/// Row `j > i` of column `i` of the factor L is structurally nonzero: some
/// entry `(k, j)` of `a` has `i` among the ancestors of `k`.
pub open spec fn in_l_col<T>(a: &CscMatrix<T>, etree: Seq<i64>, i: int, j: int) -> bool {
    i < j && exists|p: int| #[trigger] a.entry_in_col(j, p) && is_ancestor(etree, a.row_idx@[p] as int, i)
}

/// `etree` is the elimination tree of `a`: the parent of `i` is the first row
/// below the diagonal of column `i` of L, and `i` is a root exactly when that
/// column has no entry below the diagonal.
pub open spec fn is_elimination_tree<T>(a: &CscMatrix<T>, etree: Seq<i64>) -> bool {
    forall|i: int| 0 <= i < etree.len() ==> if #[trigger] etree[i] == UNKNOWN {
        forall|j: int| !in_l_col(a, etree, i, j)
    } else {
        in_l_col(a, etree, i, etree[i] as int)
            && forall|j: int| i < j < etree[i] ==> !in_l_col(a, etree, i, j)
    }
}

/// The ancestors of a vertex form a chain.
proof fn lemma_ancestor_chain(etree: Seq<i64>, k: int, x: int, y: int)
    requires
        is_ancestor(etree, k, x),
        is_ancestor(etree, k, y),
        x <= y,
    ensures
        is_ancestor(etree, x, y),
    decreases x - k,
{
    reveal(is_ancestor);
    if k != x {
        lemma_ancestor_order(etree, k, x);
        lemma_ancestor_chain(etree, etree[k] as int, x, y);
    }
}

/// A forest whose parent links are justified by entries of `a`, and in which
/// every entry `(k, j)` has `j` among the ancestors of `k`, is the elimination
/// tree of `a`.
proof fn lemma_elimination_tree<T>(a: &CscMatrix<T>, etree: Seq<i64>)
    requires
        forest_below(etree, etree.len() as int),
        parents_justified(a, etree),
        forall|j: int, p: int| #[trigger] a.entry_in_col(j, p) ==> is_ancestor(etree, a.row_idx@[p] as int, j),
    ensures
        is_elimination_tree(a, etree),
{
    assert forall|i: int| 0 <= i < etree.len() implies if #[trigger] etree[i] == UNKNOWN {
        forall|j: int| !in_l_col(a, etree, i, j)
    } else {
        in_l_col(a, etree, i, etree[i] as int)
            && forall|j: int| i < j < etree[i] ==> !in_l_col(a, etree, i, j)
    } by {
        assert forall|j: int| #[trigger] in_l_col(a, etree, i, j) implies
            etree[i] != UNKNOWN && etree[i] <= j by {
            let p = choose|p: int| #[trigger] a.entry_in_col(j, p) && is_ancestor(etree, a.row_idx@[p] as int, i);
            let k = a.row_idx@[p] as int;
            assert(is_ancestor(etree, k, j));
            lemma_ancestor_chain(etree, k, i, j);
            reveal(is_ancestor);
            lemma_ancestor_order(etree, etree[i] as int, j);
        }
        if etree[i] != UNKNOWN {
            assert(parent_justified(a, etree, i));
        }
    }
}

/// Giving a root a parent above `x` changes no ancestry of `x`.
proof fn lemma_ancestor_update_below(etree: Seq<i64>, r: int, v: i64, k: int, x: int)
    requires
        0 <= r < etree.len(),
        etree[r] == UNKNOWN,
        x < v,
    ensures
        is_ancestor(etree.update(r, v), k, x) == is_ancestor(etree, k, x),
    decreases x - k,
{
    reveal(is_ancestor);
    let e2 = etree.update(r, v);
    if k != x && 0 <= k < etree.len() && k < x && k != r && k < etree[k] as int && etree[k] as int <= x {
        lemma_ancestor_update_below(etree, r, v, etree[k] as int, x);
    }
}

/// Number of rows `j < upto` below the diagonal of column `i` of the factor L.
pub open spec fn l_col_count<T>(a: &CscMatrix<T>, etree: Seq<i64>, i: int, upto: int) -> int
    decreases upto,
{
    if upto <= 0 {
        0
    } else {
        l_col_count(a, etree, i, upto - 1) + if in_l_col(a, etree, i, upto - 1) { 1int } else { 0int }
    }
}

/// Trees with the same ancestry below `upto` give the same counts below `upto`.
proof fn lemma_count_stable<T>(a: &CscMatrix<T>, e1: Seq<i64>, e2: Seq<i64>, i: int, upto: int)
    requires
        forall|k: int, y: int| #![trigger is_ancestor(e1, k, y)] #![trigger is_ancestor(e2, k, y)]
            y < upto ==> is_ancestor(e1, k, y) == is_ancestor(e2, k, y),
    ensures
        l_col_count(a, e1, i, upto) == l_col_count(a, e2, i, upto),
    decreases upto,
{
    if upto > 0 {
        lemma_count_stable(a, e1, e2, i, upto - 1);
        if in_l_col(a, e1, i, upto - 1) {
            let p = choose|p: int| #[trigger] a.entry_in_col(upto - 1, p) && is_ancestor(e1, a.row_idx@[p] as int, i);
            assert(is_ancestor(e2, a.row_idx@[p] as int, i));
        }
        if in_l_col(a, e2, i, upto - 1) {
            let p = choose|p: int| #[trigger] a.entry_in_col(upto - 1, p) && is_ancestor(e2, a.row_idx@[p] as int, i);
            assert(is_ancestor(e1, a.row_idx@[p] as int, i));
        }
    }
}

/// Walk from `i0` up the partial elimination tree, marking every vertex met
/// with column `j`, counting column `j` in its row of L and hanging the root of
/// the walk below `j`.
fn walk_to_column(work: &mut Vec<i64>, lnz: &mut Vec<usize>, etree: &mut Vec<i64>, i0: usize, j: usize)
    requires
        old(work)@.len() == old(etree)@.len(),
        old(lnz)@.len() == old(etree)@.len(),
        j < old(etree)@.len(),
        old(etree)@.len() <= i64::MAX,
        i0 <= j,
        old(work)@[j as int] == j,
        forall|x: int| 0 <= x < old(work)@.len() ==> 0 <= #[trigger] old(work)@[x] <= j,
        forest_below(old(etree)@, j as int + 1),
        forall|x: int| j < x < old(etree)@.len() ==> #[trigger] old(etree)@[x] == UNKNOWN,
        forall|x: int| 0 <= x <= j && #[trigger] old(work)@[x] == j ==> is_ancestor(old(etree)@, x, j as int),
        forall|x: int| 0 <= x < old(lnz)@.len() ==> #[trigger] old(lnz)@[x] <= if x < j {
            j - 1 - x + (if old(work)@[x] == j { 1int } else { 0int })
        } else { 0 },
        forall|y: int, x: int| #![trigger old(work)@[y], old(work)@[x]]
            0 <= y < j && 0 <= x < j && old(work)@[y] == j && is_ancestor(old(etree)@, y, x) ==> old(work)@[x] == j,
    ensures
        final(work)@.len() == old(work)@.len(),
        final(lnz)@.len() == old(lnz)@.len(),
        final(etree)@.len() == old(etree)@.len(),
        final(work)@[j as int] == j,
        final(work)@[i0 as int] == j,
        forall|x: int| 0 <= x < final(work)@.len() ==> 0 <= #[trigger] final(work)@[x] <= j,
        forest_below(final(etree)@, j as int + 1),
        forall|x: int| j < x < final(etree)@.len() ==> #[trigger] final(etree)@[x] == UNKNOWN,
        forall|x: int| 0 <= x <= j && #[trigger] final(work)@[x] == j ==> is_ancestor(final(etree)@, x, j as int),
        forall|x: int| 0 <= x < final(lnz)@.len() ==> #[trigger] final(lnz)@[x] <= if x < j {
            j - 1 - x + (if final(work)@[x] == j { 1int } else { 0int })
        } else { 0 },
        forall|x: int, y: int| #[trigger] is_ancestor(old(etree)@, x, y) ==> is_ancestor(final(etree)@, x, y),
        is_ancestor(final(etree)@, i0 as int, j as int),
        forall|x: int| 0 <= x < old(etree)@.len() && old(etree)@[x] != UNKNOWN ==> #[trigger] final(etree)@[x] == old(etree)@[x],
        forall|x: int| 0 <= x < old(etree)@.len() && old(etree)@[x] == UNKNOWN && #[trigger] final(etree)@[x] != UNKNOWN ==>
            final(etree)@[x] == j && is_ancestor(final(etree)@, i0 as int, x),
        forall|k: int, x: int| #![trigger is_ancestor(final(etree)@, k, x)] #![trigger is_ancestor(old(etree)@, k, x)]
            x < j ==> is_ancestor(final(etree)@, k, x) == is_ancestor(old(etree)@, k, x),
        forall|x: int| 0 <= x < old(etree)@.len() ==> (#[trigger] final(work)@[x] == j <==>
            (old(work)@[x] == j || (is_ancestor(final(etree)@, i0 as int, x) && x < j))),
        forall|x: int| 0 <= x < old(etree)@.len() ==> #[trigger] final(lnz)@[x] == old(lnz)@[x]
            + if final(work)@[x] == j && old(work)@[x] != j { 1int } else { 0int },
{
    let ghost n = etree@.len();
    let ghost e_start = etree@;
    let ghost w_start = work@;
    let ghost l_start = lnz@;
    let mut i = i0;
    let ghost mut path: Seq<int> = Seq::empty();
    proof {
        lemma_ancestor_refl(etree@, i0 as int);
        assert forall|x: int| 0 <= x < n implies (#[trigger] work@[x] == j <==>
            (w_start[x] == j || (is_ancestor(etree@, i0 as int, x) && x < i))) by {
            if is_ancestor(etree@, i0 as int, x) {
                lemma_ancestor_order(etree@, i0 as int, x);
            }
        }
    }
    while work[i] != j as i64
        invariant
            work@.len() == n,
            lnz@.len() == n,
            etree@.len() == n,
            n <= i64::MAX,
            j < n,
            i0 <= i <= j,
            work@[j as int] == j,
            forall|x: int| 0 <= x < n ==> 0 <= #[trigger] work@[x] <= j,
            forest_below(etree@, j as int + 1),
            forall|x: int| j < x < n ==> #[trigger] etree@[x] == UNKNOWN,
            forall|x: int| 0 <= x <= j && #[trigger] work@[x] == j && !path.contains(x) ==>
                is_ancestor(etree@, x, j as int),
            forall|k: int| 0 <= k < path.len() ==> #[trigger] is_ancestor(etree@, path[k], i as int)
                && path[k] < i && 0 <= path[k] && work@[path[k]] == j,
            path.len() == 0 ==> i == i0,
            path.len() > 0 ==> path[0] == i0,
            forall|x: int| 0 <= x < n ==> #[trigger] lnz@[x] <= if x < j {
                j - 1 - x + (if work@[x] == j { 1int } else { 0int })
            } else { 0 },
            forall|x: int, y: int| #[trigger] is_ancestor(e_start, x, y) ==> is_ancestor(etree@, x, y),
            is_ancestor(etree@, i0 as int, i as int),
            forall|x: int| 0 <= x < n && e_start[x] != UNKNOWN ==> #[trigger] etree@[x] == e_start[x],
            forall|x: int| 0 <= x < n && e_start[x] == UNKNOWN && #[trigger] etree@[x] != UNKNOWN ==>
                etree@[x] == j && is_ancestor(etree@, i0 as int, x),
            w_start.len() == n,
            l_start.len() == n,
            forall|k: int, x: int| #![trigger is_ancestor(etree@, k, x)] #![trigger is_ancestor(e_start, k, x)]
                x < j ==> is_ancestor(etree@, k, x) == is_ancestor(e_start, k, x),
            forall|x: int| 0 <= x < n ==> (#[trigger] work@[x] == j <==>
                (w_start[x] == j || (is_ancestor(etree@, i0 as int, x) && x < i))),
            forall|x: int| 0 <= x < n ==> #[trigger] lnz@[x] == l_start[x]
                + if work@[x] == j && w_start[x] != j { 1int } else { 0int },
        decreases j - i,
    {
        let ghost e0 = etree@;
        let ghost w0 = work@;
        let ghost old_path = path;
        if etree[i] == UNKNOWN {
            etree.set(i, j as i64);
            proof {
                assert forall|x: int| 0 <= x <= j && #[trigger] work@[x] == j && !path.contains(x) implies
                    is_ancestor(etree@, x, j as int) by {
                    lemma_ancestor_grow(e0, i as int, j as i64, x, j as int);
                }
                assert forall|k: int| 0 <= k < path.len() implies #[trigger] is_ancestor(etree@, path[k], i as int)
                    && path[k] < i && 0 <= path[k] && work@[path[k]] == j by {
                    lemma_ancestor_grow(e0, i as int, j as i64, path[k], i as int);
                }
                assert forall|x: int, y: int| #[trigger] is_ancestor(e_start, x, y) implies is_ancestor(etree@, x, y) by {
                    lemma_ancestor_grow(e0, i as int, j as i64, x, y);
                }
                lemma_ancestor_grow(e0, i as int, j as i64, i0 as int, i as int);
                assert forall|k: int, x: int| #![trigger is_ancestor(etree@, k, x)] #![trigger is_ancestor(e_start, k, x)]
                    x < j implies is_ancestor(etree@, k, x) == is_ancestor(e_start, k, x) by {
                    lemma_ancestor_update_below(e0, i as int, j as i64, k, x);
                    assert(is_ancestor(e0, k, x) == is_ancestor(e_start, k, x));
                }
                assert forall|x: int| 0 <= x < n implies (#[trigger] work@[x] == j <==>
                    (w_start[x] == j || (is_ancestor(etree@, i0 as int, x) && x < i))) by {
                    if x < i {
                        lemma_ancestor_update_below(e0, i as int, j as i64, i0 as int, x);
                    }
                }
                assert forall|x: int| 0 <= x < n && e_start[x] == UNKNOWN && #[trigger] etree@[x] != UNKNOWN implies
                    etree@[x] == j && is_ancestor(etree@, i0 as int, x) by {
                    if x != i as int {
                        lemma_ancestor_grow(e0, i as int, j as i64, i0 as int, x);
                    }
                }
                lemma_ancestor_refl(etree@, j as int);
                lemma_ancestor_step(etree@, i as int, j as int);
            }
        }
        assert(i < j);
        let ghost e1 = etree@;
        assert forall|k: int| 0 <= k < old_path.len() implies #[trigger] is_ancestor(e1, old_path[k], i as int)
            && old_path[k] < i && 0 <= old_path[k] && w0[old_path[k]] == j by {
            assert(is_ancestor(etree@, path[k], i as int));
        }
        lnz.set(i, lnz[i] + 1);
        work.set(i, j as i64);
        proof {
            path = path.push(i as int);
        }
        let next = etree[i] as usize;
        proof {
            assert(i < e1[i as int] <= j);
            lemma_ancestor_refl(etree@, next as int);
            lemma_ancestor_step(etree@, i as int, next as int);
            lemma_ancestor_trans(etree@, i0 as int, i as int, next as int);
            assert forall|x: int| 0 <= x < n implies (#[trigger] work@[x] == j <==>
                (w_start[x] == j || (is_ancestor(etree@, i0 as int, x) && x < next))) by {
                if x != i as int {
                    assert(work@[x] == w0[x]);
                    if is_ancestor(etree@, i0 as int, x) && i < x && x < next {
                        lemma_ancestor_chain(etree@, i0 as int, i as int, x);
                        reveal(is_ancestor);
                        lemma_ancestor_order(etree@, next as int, x);
                    }
                }
            }
            assert forall|x: int| 0 <= x < n implies #[trigger] lnz@[x] == l_start[x]
                + if work@[x] == j && w_start[x] != j { 1int } else { 0int } by {
                if x == i as int {
                    assert(w0[x] != j);
                } else {
                    assert(work@[x] == w0[x]);
                }
            }
            assert forall|k: int| 0 <= k < path.len() implies #[trigger] is_ancestor(etree@, path[k], next as int)
                && path[k] < next && 0 <= path[k] && work@[path[k]] == j by {
                if k < old_path.len() {
                    assert(old_path[k] == path[k]);
                    assert(0 <= k < old_path.len());
                    assert(is_ancestor(e1, old_path[k], i as int));
                    assert(old_path[k] < i);
                    assert(w0[old_path[k]] == j);
                    lemma_ancestor_trans(etree@, path[k], i as int, next as int);
                    assert(path[k] != i as int);
                }
            }
            assert forall|x: int| 0 <= x <= j && #[trigger] work@[x] == j && !path.contains(x) implies
                is_ancestor(etree@, x, j as int) by {
                assert(path[path.len() - 1] == i as int);
                assert(x != i as int);
                assert(w0[x] == j);
                if old_path.contains(x) {
                    let k = choose|k: int| 0 <= k < old_path.len() && old_path[k] == x;
                    assert(path[k] == x);
                }
            }
        }
        i = next;
    }
    proof {
        assert(!path.contains(i as int)) by {
            if path.contains(i as int) {
                let k = choose|k: int| 0 <= k < path.len() && path[k] == i as int;
                assert(is_ancestor(etree@, path[k], i as int));
                assert(path[k] < i);
            }
        }
        assert(is_ancestor(etree@, i as int, j as int));
        assert forall|x: int| 0 <= x <= j && #[trigger] work@[x] == j implies is_ancestor(etree@, x, j as int) by {
            if path.contains(x) {
                let k = choose|k: int| 0 <= k < path.len() && path[k] == x;
                assert(is_ancestor(etree@, path[k], i as int));
                lemma_ancestor_trans(etree@, x, i as int, j as int);
            }
        }
        if path.len() > 0 {
            assert(is_ancestor(etree@, path[0], i as int));
            lemma_ancestor_trans(etree@, i0 as int, i as int, j as int);
        }
        assert forall|x: int| 0 <= x < n implies (#[trigger] work@[x] == j <==>
            (w_start[x] == j || (is_ancestor(etree@, i0 as int, x) && x < j))) by {
            if is_ancestor(etree@, i0 as int, x) && i <= x && x < j {
                assert(work@[i as int] == j);
                lemma_ancestor_chain(etree@, i0 as int, i as int, x);
                assert(is_ancestor(e_start, i as int, x));
                assert(w_start[i as int] == j);
                assert(w_start[x] == j);
            }
        }
    }
}

/// Some entry of column `j` stored before position `p` has `x` among the
/// ancestors of its row.
pub open spec fn column_reaches<T>(a: &CscMatrix<T>, etree: Seq<i64>, j: int, p: int, x: int) -> bool {
    exists|pp: int| a.col_ptr@[j] <= pp < p && #[trigger] is_ancestor(etree, a.row_idx@[pp] as int, x)
}

/// Process column `j` of the upper triangle: every entry `(i, j)` walks up the
/// tree from `i`. `false` when an entry lies below the diagonal.
fn analyze_column<T>(a: &CscMatrix<T>, work: &mut Vec<i64>, lnz: &mut Vec<usize>, etree: &mut Vec<i64>, j: usize) -> (ok: bool)
    requires
        a.cols_ok(),
        a.m == a.n,
        a.n <= i64::MAX,
        j < a.n,
        old(work)@.len() == a.n,
        old(lnz)@.len() == a.n,
        old(etree)@.len() == a.n,
        forall|x: int| 0 <= x < a.n ==> 0 <= #[trigger] old(work)@[x] <= j,
        j > 0 ==> forall|x: int| 0 <= x < a.n ==> #[trigger] old(work)@[x] < j,
        forest_below(old(etree)@, j as int),
        forall|x: int| j <= x < a.n ==> #[trigger] old(etree)@[x] == UNKNOWN,
        forall|x: int| 0 <= x < a.n ==> #[trigger] old(lnz)@[x] <= if x < j { j - 1 - x } else { 0 },
        forall|jj: int, p: int| #[trigger] a.entry_in_col(jj, p) && jj < j ==>
            a.row_idx@[p] <= jj && is_ancestor(old(etree)@, a.row_idx@[p] as int, jj),
        parents_justified(a, old(etree)@),
        forall|x: int| 0 <= x < a.n ==> #[trigger] old(lnz)@[x] == l_col_count(a, old(etree)@, x, j as int),
    ensures
        final(work)@.len() == a.n,
        final(lnz)@.len() == a.n,
        final(etree)@.len() == a.n,
        ok <==> !(exists|p: int| #[trigger] a.entry_in_col(j as int, p) && a.row_idx@[p] > j),
        ok ==> forall|x: int| 0 <= x < a.n ==> 0 <= #[trigger] final(work)@[x] <= j,
        ok ==> forest_below(final(etree)@, j as int + 1),
        ok ==> forall|x: int| j < x < a.n ==> #[trigger] final(etree)@[x] == UNKNOWN,
        ok ==> forall|x: int| 0 <= x < a.n ==> #[trigger] final(lnz)@[x] <= if x <= j { j - x } else { 0 },
        ok ==> forall|jj: int, p: int| #[trigger] a.entry_in_col(jj, p) && jj <= j ==>
            a.row_idx@[p] <= jj && is_ancestor(final(etree)@, a.row_idx@[p] as int, jj),
        ok ==> parents_justified(a, final(etree)@),
        ok ==> forall|x: int| 0 <= x < a.n ==> #[trigger] final(lnz)@[x] == l_col_count(a, final(etree)@, x, j + 1),
{
    let n = a.n;
    let ghost e_start = etree@;
    let ghost l_start = lnz@;
    work.set(j, j as i64);
    let end = a.col_ptr[j + 1];
    let mut p = a.col_ptr[j];
    assert(a.col_ptr@[j as int] <= a.col_ptr@[j + 1]);
    assert(a.col_ptr@[j + 1] <= a.col_ptr@[n as int]);
    proof {
        assert forall|x: int| 0 <= x < n implies #[trigger] lnz@[x] <= if x < j {
            j - 1 - x + (if work@[x] == j { 1int } else { 0int })
        } else { 0 } by {}
        assert forall|x: int| 0 <= x <= j && #[trigger] work@[x] == j implies is_ancestor(etree@, x, j as int) by {
            if x < j {
                assert(j > 0);
            } else {
                lemma_ancestor_refl(etree@, x);
            }
        }
    }
    while p < end
        invariant
            a.cols_ok(),
            n == a.n,
            n <= i64::MAX,
            j < n,
            end == a.col_ptr@[j + 1],
            end <= a.row_idx@.len(),
            a.col_ptr@[j as int] <= p <= end,
            work@.len() == n,
            lnz@.len() == n,
            etree@.len() == n,
            forall|x: int| 0 <= x < n ==> 0 <= #[trigger] work@[x] <= j,
            work@[j as int] == j,
            forest_below(etree@, j as int + 1),
            forall|x: int| j < x < n ==> #[trigger] etree@[x] == UNKNOWN,
            forall|x: int| 0 <= x <= j && #[trigger] work@[x] == j ==> is_ancestor(etree@, x, j as int),
            forall|x: int| 0 <= x < n ==> #[trigger] lnz@[x] <= if x < j {
                j - 1 - x + (if work@[x] == j { 1int } else { 0int })
            } else { 0 },
            forall|x: int, y: int| #[trigger] is_ancestor(e_start, x, y) ==> is_ancestor(etree@, x, y),
            forall|pp: int| a.col_ptr@[j as int] <= pp < p ==> #[trigger] a.row_idx@[pp] <= j,
            forall|pp: int| a.col_ptr@[j as int] <= pp < p ==>
                is_ancestor(etree@, #[trigger] a.row_idx@[pp] as int, j as int),
            parents_justified(a, etree@),
            l_start.len() == n,
            forall|x: int| 0 <= x < n ==> #[trigger] l_start[x] == l_col_count(a, e_start, x, j as int),
            forall|k: int, x: int| #![trigger is_ancestor(etree@, k, x)] #![trigger is_ancestor(e_start, k, x)]
                x < j ==> is_ancestor(etree@, k, x) == is_ancestor(e_start, k, x),
            forall|x: int| 0 <= x <= j ==> (#[trigger] work@[x] == j <==>
                (x == j || (x < j && column_reaches(a, etree@, j as int, p as int, x)))),
            forall|x: int| 0 <= x < n ==> #[trigger] lnz@[x] == l_start[x]
                + if x < j && work@[x] == j { 1int } else { 0int },
        decreases end - p,
    {
        let i = a.row_idx[p];
        if i > j {
            assert(a.entry_in_col(j as int, p as int));
            return false;
        }
        let ghost e0 = etree@;
        let ghost w0 = work@;
        let ghost l0 = lnz@;
        proof {
            assert forall|y: int, x: int| #![trigger work@[y], work@[x]]
                0 <= y < j && 0 <= x < j && work@[y] == j && is_ancestor(etree@, y, x) implies work@[x] == j by {
                assert(column_reaches(a, etree@, j as int, p as int, y));
                let pp = choose|pp: int| a.col_ptr@[j as int] <= pp < p && #[trigger] is_ancestor(etree@, a.row_idx@[pp] as int, y);
                lemma_ancestor_trans(etree@, a.row_idx@[pp] as int, y, x);
                assert(column_reaches(a, etree@, j as int, p as int, x));
            }
        }
        walk_to_column(work, lnz, etree, i, j);
        proof {
            assert forall|k: int, x: int| #![trigger is_ancestor(etree@, k, x)] #![trigger is_ancestor(e_start, k, x)]
                x < j implies is_ancestor(etree@, k, x) == is_ancestor(e_start, k, x) by {
                assert(is_ancestor(etree@, k, x) == is_ancestor(e0, k, x));
            }
            assert forall|x: int| 0 <= x <= j implies (#[trigger] work@[x] == j <==>
                (x == j || (x < j && column_reaches(a, etree@, j as int, p + 1, x)))) by {
                if x < j {
                    if column_reaches(a, e0, j as int, p as int, x) {
                        let pp = choose|pp: int| a.col_ptr@[j as int] <= pp < p && #[trigger] is_ancestor(e0, a.row_idx@[pp] as int, x);
                        assert(is_ancestor(etree@, a.row_idx@[pp] as int, x));
                    }
                    if column_reaches(a, etree@, j as int, p + 1, x) {
                        let pp = choose|pp: int| a.col_ptr@[j as int] <= pp < p + 1 && #[trigger] is_ancestor(etree@, a.row_idx@[pp] as int, x);
                        assert(is_ancestor(e0, a.row_idx@[pp] as int, x));
                        if pp < p {
                            assert(column_reaches(a, e0, j as int, p as int, x));
                        }
                    }
                    if is_ancestor(etree@, i as int, x) {
                        assert(column_reaches(a, etree@, j as int, p + 1, x));
                    }
                }
            }
            assert forall|x: int| 0 <= x < n implies #[trigger] lnz@[x] == l_start[x]
                + if x < j && work@[x] == j { 1int } else { 0int } by {
                if x == j as int {
                    assert(w0[x] == j);
                }
            }
            assert forall|x: int| 0 <= x < etree@.len() && #[trigger] etree@[x] != UNKNOWN implies
                parent_justified(a, etree@, x) by {
                if e0[x] != UNKNOWN {
                    assert(parent_justified(a, e0, x));
                    let pp = choose|pp: int| #[trigger] a.entry_in_col(e0[x] as int, pp) && is_ancestor(e0, a.row_idx@[pp] as int, x);
                    assert(is_ancestor(etree@, a.row_idx@[pp] as int, x));
                } else {
                    assert(a.entry_in_col(j as int, p as int));
                    assert(is_ancestor(etree@, a.row_idx@[p as int] as int, x));
                }
            }
            assert forall|pp: int| a.col_ptr@[j as int] <= pp < p + 1 implies
                is_ancestor(etree@, #[trigger] a.row_idx@[pp] as int, j as int) by {
                if pp < p {
                    assert(is_ancestor(e0, a.row_idx@[pp] as int, j as int));
                }
            }
            assert forall|x: int, y: int| #[trigger] is_ancestor(e_start, x, y) implies is_ancestor(etree@, x, y) by {
                assert(is_ancestor(e0, x, y));
            }
        }
        p = p + 1;
    }
    proof {
        assert forall|pp: int| #[trigger] a.entry_in_col(j as int, pp) && a.row_idx@[pp] > j implies false by {
            assert(a.row_idx@[pp] <= j);
        }
        assert forall|x: int| 0 <= x < n implies #[trigger] lnz@[x] == l_col_count(a, etree@, x, j + 1) by {
            lemma_count_stable(a, etree@, e_start, x, j as int);
            assert(in_l_col(a, etree@, x, j as int) == (x < j && column_reaches(a, etree@, j as int, p as int, x))) by {
                if in_l_col(a, etree@, x, j as int) {
                    let pp = choose|pp: int| #[trigger] a.entry_in_col(j as int, pp) && is_ancestor(etree@, a.row_idx@[pp] as int, x);
                }
                if x < j && column_reaches(a, etree@, j as int, p as int, x) {
                    let pp = choose|pp: int| a.col_ptr@[j as int] <= pp < p && #[trigger] is_ancestor(etree@, a.row_idx@[pp] as int, x);
                    assert(a.entry_in_col(j as int, pp));
                }
            }
        }
        assert forall|jj: int, pp: int| #[trigger] a.entry_in_col(jj, pp) && jj <= j implies
            a.row_idx@[pp] <= jj && is_ancestor(etree@, a.row_idx@[pp] as int, jj) by {
            if jj < j {
                assert(is_ancestor(e_start, a.row_idx@[pp] as int, jj));
            } else {
                assert(a.row_idx@[pp] <= j);
            }
        }
    }
    true
}

/// Entries below the diagonal in columns `0 .. upto` of the factor L.
pub open spec fn l_fill<T>(a: &CscMatrix<T>, etree: Seq<i64>, upto: int) -> int
    decreases upto,
{
    if upto <= 0 {
        0
    } else {
        l_fill(a, etree, upto - 1) + l_col_count(a, etree, upto - 1, a.n as int)
    }
}

/// The factor L of `a` has at most `usize::MAX` entries below its diagonal,
/// for the elimination tree of `a`; vacuous when the analysis refuses `a`.
pub open spec fn fill_fits<T>(a: &CscMatrix<T>) -> bool {
    !has_empty_column(a) && !has_entry_below_diagonal(a) ==>
        forall|e: Seq<i64>| #![trigger is_elimination_tree(a, e)]
            e.len() == a.n && is_elimination_tree(a, e) ==> l_fill(a, e, a.n as int) <= usize::MAX
}

proof fn lemma_l_col_count_nonneg<T>(a: &CscMatrix<T>, etree: Seq<i64>, i: int, upto: int)
    ensures
        l_col_count(a, etree, i, upto) >= 0,
    decreases upto,
{
    if upto > 0 {
        lemma_l_col_count_nonneg(a, etree, i, upto - 1);
    }
}

/// The fill of a prefix of the columns never exceeds that of a longer prefix.
proof fn lemma_l_fill_mono<T>(a: &CscMatrix<T>, etree: Seq<i64>, i: int, j: int)
    requires
        i <= j,
    ensures
        l_fill(a, etree, i) <= l_fill(a, etree, j),
    decreases j - i,
{
    if i < j {
        lemma_l_fill_mono(a, etree, i, j - 1);
        if j > 0 {
            lemma_l_col_count_nonneg(a, etree, j - 1, a.n as int);
        }
    }
}

/// Elimination tree and column counts of L, or the reason the analysis refuses `a`.
fn tree_counts<T>(a: &CscMatrix<T>) -> (r: Result<(Vec<i64>, Vec<usize>), LdlError>)
    requires
        a.cols_ok(),
        a.m == a.n,
        a.n <= i64::MAX,
    ensures
        has_empty_column(a) ==> (r matches Err(e) && e.msg@ == "empty column in upper CSC"@),
        !has_empty_column(a) && has_entry_below_diagonal(a) ==>
            (r matches Err(e) && e.msg@ == "entry below diagonal"@),
        !has_empty_column(a) && !has_entry_below_diagonal(a) ==> r is Ok,
        r matches Ok((etree, lnz)) ==> {
            &&& etree@.len() == a.n
            &&& lnz@.len() == a.n
            &&& forest_below(etree@, a.n as int)
            &&& forall|i: int| 0 <= i < a.n ==> #[trigger] lnz@[i] <= a.n - 1 - i
            &&& forall|j: int, p: int| #[trigger] a.entry_in_col(j, p) ==>
                is_ancestor(etree@, a.row_idx@[p] as int, j)
            &&& is_elimination_tree(a, etree@)
            &&& tree_of(a, etree@)
            &&& forall|i: int| 0 <= i < a.n ==> #[trigger] lnz@[i] == l_col_count(a, etree@, i, a.n as int)
        },
{
        let n = a.n;
        let mut work: Vec<i64> = Vec::new();
        let mut lnz: Vec<usize> = Vec::new();
        let mut etree: Vec<i64> = Vec::new();
        let mut i: usize = 0;
        while i < n
            invariant
                a.cols_ok(),
                n == a.n,
                i <= n,
                work@.len() == i,
                lnz@.len() == i,
                etree@.len() == i,
                forall|x: int| 0 <= x < i ==> #[trigger] work@[x] == 0,
                forall|x: int| 0 <= x < i ==> #[trigger] lnz@[x] == 0,
                forall|x: int| 0 <= x < i ==> #[trigger] etree@[x] == UNKNOWN,
                forall|x: int| 0 <= x < i ==> #[trigger] a.col_ptr@[x] != a.col_ptr@[x + 1],
            decreases n - i,
        {
            work.push(0);
            lnz.push(0);
            etree.push(UNKNOWN);
            if a.col_ptr[i] == a.col_ptr[i + 1] {
                proof {
                    reveal_strlit("empty column in upper CSC");
                }
                return Err(LdlError { msg: "empty column in upper CSC" });
            }
            i = i + 1;
        }
        let mut j: usize = 0;
        while j < n
            invariant
                a.cols_ok(),
                a.m == a.n,
                n == a.n,
                n <= i64::MAX,
                j <= n,
                work@.len() == n,
                lnz@.len() == n,
                etree@.len() == n,
                forall|x: int| 0 <= x < n ==> #[trigger] a.col_ptr@[x] != a.col_ptr@[x + 1],
                forall|x: int| 0 <= x < n ==> 0 <= #[trigger] work@[x] <= j,
                j > 0 ==> forall|x: int| 0 <= x < n ==> #[trigger] work@[x] < j,
                forest_below(etree@, j as int),
                forall|x: int| j <= x < n ==> #[trigger] etree@[x] == UNKNOWN,
                forall|x: int| 0 <= x < n ==> #[trigger] lnz@[x] <= if x < j { j - 1 - x } else { 0 },
                forall|jj: int, p: int| #[trigger] a.entry_in_col(jj, p) && jj < j ==>
                    a.row_idx@[p] <= jj && is_ancestor(etree@, a.row_idx@[p] as int, jj),
                parents_justified(a, etree@),
                forall|x: int| 0 <= x < n ==> #[trigger] lnz@[x] == l_col_count(a, etree@, x, j as int),
            decreases n - j,
        {
            let ghost e_before = etree@;
            let ok = analyze_column(a, &mut work, &mut lnz, &mut etree, j);
            if !ok {
                proof {
                    reveal_strlit("entry below diagonal");
                    assert forall|x: int| 0 <= x < n implies #[trigger] a.col_ptr@[x] != a.col_ptr@[x + 1] by {}
                }
                return Err(LdlError { msg: "entry below diagonal" });
            }
            j = j + 1;
        }
        proof {
            lemma_elimination_tree(a, etree@);
        }
        proof {
            lemma_elimination_tree(a, etree@);
        }
        Ok((etree, lnz))
}

impl LdlSymbolic {
    /// Symbolic analysis of the upper triangle `a` of a symmetric `n x n` matrix.
    ///
    /// Refused when a column is empty (checked first) or when an entry lies
    /// below the diagonal. Otherwise `etree` is the elimination tree of `a`
    /// (every stored entry `(i, j)` has `j` among the ancestors of `i`),
    /// `lnz[i]` is the number of entries below the diagonal in column `i` of
    /// the factor L, and `lp` is the running sum of these counts, which must
    /// fit in `usize` (see `fill_fits_in_usize`).
    pub fn analyze<T>(a: &CscMatrix<T>) -> (r: Result<Self, LdlError>)
        requires
            a.cols_ok(),
            a.m == a.n,
            a.n <= i64::MAX,
            fill_fits(a),
        ensures
            has_empty_column(a) ==> (r matches Err(e) && e.msg@ == "empty column in upper CSC"@),
            !has_empty_column(a) && has_entry_below_diagonal(a) ==>
                (r matches Err(e) && e.msg@ == "entry below diagonal"@),
            !has_empty_column(a) && !has_entry_below_diagonal(a) ==> r is Ok,
            r matches Ok(s) ==> s.wf() && s.n == a.n,
            r matches Ok(s) ==> forall|j: int, p: int| #[trigger] a.entry_in_col(j, p) ==>
                is_ancestor(s.etree@, a.row_idx@[p] as int, j),
            r matches Ok(s) ==> is_elimination_tree(a, s.etree@) && tree_of(a, s.etree@),
            r matches Ok(s) ==> forall|i: int| 0 <= i < a.n ==> #[trigger] s.lnz@[i] == l_col_count(a, s.etree@, i, a.n as int),
            r matches Ok(s) ==> s.lp@[a.n as int] == l_fill(a, s.etree@, a.n as int),
    {
        let n = a.n;
        let (etree, lnz) = match tree_counts(a) {
            Ok(t) => t,
            Err(e) => {
                return Err(e);
            },
        };
        proof {
            assert(is_elimination_tree(a, etree@));
            assert(l_fill(a, etree@, n as int) <= usize::MAX);
        }
        let mut lp: Vec<usize> = Vec::new();
        lp.push(0);
        let mut i: usize = 0;
        while i < n
            invariant
                i <= n,
                n == a.n,
                lnz@.len() == n,
                lp@.len() == i + 1,
                lp@[0] == 0,
                lp@[i as int] == l_fill(a, etree@, i as int),
                l_fill(a, etree@, n as int) <= usize::MAX,
                forall|x: int| 0 <= x < n ==> #[trigger] lnz@[x] == l_col_count(a, etree@, x, n as int),
                forall|x: int| 0 <= x < i ==> #[trigger] lp@[x + 1] == lp@[x] + lnz@[x],
            decreases n - i,
        {
            let cur = lp[i];
            proof {
                lemma_l_fill_mono(a, etree@, i + 1, n as int);
            }
            lp.push(cur + lnz[i]);
            i = i + 1;
        }
        Ok(LdlSymbolic { n, etree, lnz, lp })
    }

    /// Whether the factor L of `a` has at most `usize::MAX` entries below its
    /// diagonal, as `analyze` requires; `true` when `analyze` refuses `a`.
    pub fn fill_fits_in_usize<T>(a: &CscMatrix<T>) -> (r: bool)
        requires
            a.cols_ok(),
            a.m == a.n,
            a.n <= i64::MAX,
        ensures
            r == fill_fits(a),
    {
        let n = a.n;
        let (etree, lnz) = match tree_counts(a) {
            Ok(t) => t,
            Err(_) => {
                return true;
            },
        };
        proof {
            assert forall|e: Seq<i64>| #![trigger is_elimination_tree(a, e)]
                e.len() == a.n && is_elimination_tree(a, e) implies e == etree@ by {
                lemma_tree_prefix(a, a, etree@, e, n as int);
                assert(e =~= etree@);
            }
        }
        let mut total: usize = 0;
        let mut i: usize = 0;
        while i < n
            invariant
                i <= n,
                n == a.n,
                lnz@.len() == n,
                total == l_fill(a, etree@, i as int),
                forall|x: int| 0 <= x < n ==> #[trigger] lnz@[x] == l_col_count(a, etree@, x, n as int),
                etree@.len() == n,
                is_elimination_tree(a, etree@),
                !has_empty_column(a) && !has_entry_below_diagonal(a),
            decreases n - i,
        {
            match total.checked_add(lnz[i]) {
                Some(t) => {
                    total = t;
                },
                None => {
                    proof {
                        lemma_l_fill_mono(a, etree@, i + 1, n as int);
                    }
                    return false;
                },
            }
            i = i + 1;
        }
        proof {
            assert(is_elimination_tree(a, etree@));
        }
        true
    }
}

impl LdlSymbolic {
    /// Shape of a valid analysis of an `n x n` matrix.
    pub open spec fn wf(&self) -> bool {
        &&& self.etree@.len() == self.n
        &&& self.lnz@.len() == self.n
        &&& self.lp@.len() == self.n + 1
        &&& self.lp@[0] == 0
        &&& forest_below(self.etree@, self.n as int)
        &&& forall|i: int| 0 <= i < self.n ==> #[trigger] self.lnz@[i] <= self.n - 1 - i
        &&& forall|i: int| 0 <= i < self.n ==> #[trigger] self.lp@[i + 1] == self.lp@[i] + self.lnz@[i]
    }
}


/// `x` occurs in `s`.
pub open spec fn listed(s: Seq<usize>, x: int) -> bool {
    exists|t: int| 0 <= t < s.len() && s[t] == x
}

/// `order` lists the columns `c < k` whose column of L has an entry in row
/// `k`, each once, descendants in the elimination tree before their ancestors.
pub open spec fn row_pattern_ok<T>(a: &CscMatrix<T>, etree: Seq<i64>, k: int, order: Seq<usize>) -> bool {
    &&& forall|t: int| 0 <= t < order.len() ==> #[trigger] in_l_col(a, etree, order[t] as int, k)
    &&& forall|c: int| #[trigger] in_l_col(a, etree, c, k) ==> exists|t: int| 0 <= t < order.len() && order[t] == c
    &&& forall|s: int, t: int| #![trigger order[s], order[t]] 0 <= s < t < order.len() ==>
        order[s] != order[t] && !is_ancestor(etree, order[t] as int, order[s] as int)
}

/// Facts of an analysis that the row patterns rely on.
pub open spec fn tree_of<T>(a: &CscMatrix<T>, etree: Seq<i64>) -> bool {
    &&& a.cols_ok()
    &&& a.m == a.n
    &&& etree.len() == a.n
    &&& a.n <= i64::MAX
    &&& forest_below(etree, a.n as int)
    &&& forall|j: int, p: int| #[trigger] a.entry_in_col(j, p) ==>
        a.row_idx@[p] <= j && is_ancestor(etree, a.row_idx@[p] as int, j)
}

/// The walk from `v` up the tree while below `k` and not in `seen`: the
/// vertices met, from `v` upwards.
pub open spec fn up_walk(etree: Seq<i64>, k: int, v: int, seen: Seq<usize>) -> Seq<usize>
    decreases k - v,
{
    if v < 0 || v >= k || v >= etree.len() || seen.contains(v as usize) {
        Seq::empty()
    } else {
        let nx = etree[v] as int;
        seq![v as usize] + if nx <= v || nx >= k { Seq::<usize>::empty() } else { up_walk(etree, k, nx, seen) }
    }
}

/// The rest of a walk above `cur`.
spec fn walk_above(etree: Seq<i64>, k: int, cur: int, seen: Seq<usize>) -> Seq<usize> {
    let nx = etree[cur] as int;
    if nx <= cur || nx >= k { Seq::empty() } else { up_walk(etree, k, nx, seen) }
}

/// The order in which the numeric factorization eliminates the columns of row
/// `k` of L, after the entries of column `k` of `a` stored before position
/// `p`: each entry walks up the tree from its row, skipping what earlier walks
/// met, and the last walk comes first.
pub open spec fn walk_order<T>(a: &CscMatrix<T>, etree: Seq<i64>, k: int, p: int) -> Seq<usize>
    decreases p - a.col_ptr@[k],
{
    if p <= a.col_ptr@[k] {
        Seq::empty()
    } else {
        let prev = walk_order(a, etree, k, p - 1);
        up_walk(etree, k, a.row_idx@[p - 1] as int, prev) + prev
    }
}

/// Walk from `i` up the tree while below `k` and unmarked, marking every
/// vertex met; the vertices met, from `i` upwards.
fn mark_path<T>(a: &CscMatrix<T>, etree: &Vec<i64>, k: usize, i: usize, marks: &mut Vec<bool>, Ghost(p): Ghost<int>, Ghost(seen): Ghost<Seq<usize>>) -> (path: Vec<usize>)
    requires
        forall|x: int| 0 <= x < a.n ==> (#[trigger] old(marks)@[x] <==> seen.contains(x as usize)),
        tree_of(a, etree@),
        k < a.n,
        a.entry_in_col(k as int, p),
        a.row_idx@[p] == i,
        i < k,
        old(marks)@.len() == a.n,
        !old(marks)@[i as int],
        forall|y: int, x: int| #![trigger old(marks)@[y], old(marks)@[x]]
            0 <= y < k && 0 <= x < k && old(marks)@[y] && is_ancestor(etree@, y, x) ==> old(marks)@[x],
        forall|x: int| 0 <= x < a.n && #[trigger] old(marks)@[x] ==> x < k,
    ensures
        final(marks)@.len() == a.n,
        forall|x: int| 0 <= x < a.n ==> (#[trigger] final(marks)@[x] <==>
            (old(marks)@[x] || (is_ancestor(etree@, i as int, x) && x < k))),
        forall|x: int| 0 <= x < a.n ==> (#[trigger] final(marks)@[x] <==>
            (old(marks)@[x] || listed(path@, x))),
        forall|s: int, t: int| #![trigger path@[s], path@[t]] 0 <= s < t < path@.len() ==> path@[s] < path@[t],
        forall|t: int| 0 <= t < path@.len() ==> #[trigger] path@[t] < k,
        forall|t: int| 0 <= t < path@.len() ==> !old(marks)@[#[trigger] path@[t] as int],
        path@ == up_walk(etree@, k as int, i as int, seen),
{
    let n = a.n;
    let ghost m0 = marks@;
    marks.set(i, true);
    let mut path: Vec<usize> = Vec::new();
    path.push(i);
    let mut cur = i;
    proof {
        assert(up_walk(etree@, k as int, i as int, seen) == path@ + walk_above(etree@, k as int, i as int, seen)) by {
            assert(!seen.contains(i));
            assert(path@ =~= seq![i]);
        }
    }
    proof {
        lemma_ancestor_refl(etree@, i as int);
        assert forall|x: int| 0 <= x < n implies (#[trigger] marks@[x] <==> (m0[x] || listed(path@, x))) by {
            if x == i as int {
                assert(path@[0] == x);
            } else if listed(path@, x) {
                let t = choose|t: int| 0 <= t < path@.len() && path@[t] == x;
                assert(t == 0);
            }
        }
        assert forall|x: int| 0 <= x < n implies (#[trigger] marks@[x] <==>
            (m0[x] || (is_ancestor(etree@, i as int, x) && x <= cur))) by {
            if is_ancestor(etree@, i as int, x) && x <= cur {
                lemma_ancestor_order(etree@, i as int, x);
            }
        }
    }
    loop
        invariant_except_break
            tree_of(a, etree@),
            n == a.n,
            k < n,
            i <= cur < k,
            marks@.len() == n,
            is_ancestor(etree@, i as int, cur as int),
            path@.len() > 0,
            path@[path@.len() - 1] == cur,
            forall|y: int, x: int| #![trigger m0[y], m0[x]]
                0 <= y < k && 0 <= x < k && m0[y] && is_ancestor(etree@, y, x) ==> m0[x],
            forall|x: int| 0 <= x < n ==> (#[trigger] marks@[x] <==>
                (m0[x] || (is_ancestor(etree@, i as int, x) && x <= cur))),
            forall|x: int| 0 <= x < n ==> (#[trigger] marks@[x] <==>
                (m0[x] || listed(path@, x))),
            forall|s: int, t: int| #![trigger path@[s], path@[t]] 0 <= s < t < path@.len() ==> path@[s] < path@[t],
            forall|t: int| 0 <= t < path@.len() ==> #[trigger] path@[t] <= cur,
            forall|t: int| 0 <= t < path@.len() ==> !m0[#[trigger] path@[t] as int],
            m0[i as int] == false,
            forall|x: int| 0 <= x < n ==> (#[trigger] m0[x] <==> seen.contains(x as usize)),
            up_walk(etree@, k as int, i as int, seen) == path@ + walk_above(etree@, k as int, cur as int, seen),
        ensures
            marks@.len() == n,
            forall|x: int| 0 <= x < n ==> (#[trigger] marks@[x] <==>
                (m0[x] || (is_ancestor(etree@, i as int, x) && x < k))),
            forall|x: int| 0 <= x < n ==> (#[trigger] marks@[x] <==>
                (m0[x] || listed(path@, x))),
            forall|s: int, t: int| #![trigger path@[s], path@[t]] 0 <= s < t < path@.len() ==> path@[s] < path@[t],
            forall|t: int| 0 <= t < path@.len() ==> #[trigger] path@[t] < k,
            forall|t: int| 0 <= t < path@.len() ==> !m0[#[trigger] path@[t] as int],
            path@ == up_walk(etree@, k as int, i as int, seen),
        decreases k - cur,
    {
        let next = etree[cur];
        if next == UNKNOWN || next as usize >= k || marks[next as usize] {
            proof {
                assert(walk_above(etree@, k as int, cur as int, seen) =~= Seq::<usize>::empty()) by {
                    if next != UNKNOWN && (next as usize) < k {
                        assert(cur < next);
                        assert(marks@[next as int]);
                        if !m0[next as int] {
                            let t = choose|t: int| 0 <= t < path@.len() && path@[t] == next as int;
                            assert(path@[t] <= cur);
                        }
                        assert(seen.contains(next as usize));
                    }
                }
                assert(path@ + Seq::<usize>::empty() =~= path@);
                assert forall|x: int| 0 <= x < n implies (#[trigger] marks@[x] <==>
                    (m0[x] || (is_ancestor(etree@, i as int, x) && x < k))) by {
                    if is_ancestor(etree@, i as int, x) && cur < x && x < k {
                        lemma_ancestor_chain(etree@, i as int, cur as int, x);
                        reveal(is_ancestor);
                        lemma_ancestor_order(etree@, next as int, x);
                        assert(marks@[next as int]);
                        assert(!(is_ancestor(etree@, i as int, next as int) && next <= cur));
                        assert(m0[next as int]);
                        assert(m0[x]);
                    }
                }
            }
            break;
        }
        let nx = next as usize;
        proof {
            assert(cur < nx);
            lemma_ancestor_refl(etree@, nx as int);
            lemma_ancestor_step(etree@, cur as int, nx as int);
            lemma_ancestor_trans(etree@, i as int, cur as int, nx as int);
        }
        let ghost mk0 = marks@;
        let ghost p0 = path@;
        marks.set(nx, true);
        path.push(nx);
        proof {
            assert(!seen.contains(nx)) by {
                assert(!mk0[nx as int]);
                assert(!m0[nx as int]);
            }
            assert(walk_above(etree@, k as int, cur as int, seen) == seq![nx] + walk_above(etree@, k as int, nx as int, seen));
            assert(p0 + (seq![nx] + walk_above(etree@, k as int, nx as int, seen)) =~= path@ + walk_above(etree@, k as int, nx as int, seen));
            assert forall|x: int| 0 <= x < n implies (#[trigger] marks@[x] <==>
                (m0[x] || (is_ancestor(etree@, i as int, x) && x <= nx))) by {
                if x != nx as int {
                    assert(marks@[x] == mk0[x]);
                    if is_ancestor(etree@, i as int, x) && cur < x && x < nx {
                        lemma_ancestor_chain(etree@, i as int, cur as int, x);
                        reveal(is_ancestor);
                        lemma_ancestor_order(etree@, nx as int, x);
                    }
                }
            }
            assert(!m0[nx as int]) by {
                assert(!mk0[nx as int]);
            }
            assert forall|x: int| 0 <= x < n implies (#[trigger] marks@[x] <==>
                (m0[x] || listed(path@, x))) by {
                if x == nx as int {
                    assert(path@[path@.len() - 1] == x);
                } else {
                    assert(marks@[x] == mk0[x]);
                    if listed(path@, x) {
                        let t = choose|t: int| 0 <= t < path@.len() && path@[t] == x;
                        assert(t < p0.len());
                        assert(p0[t] == x);
                        assert(listed(p0, x));
                    }
                    if listed(p0, x) {
                        let t = choose|t: int| 0 <= t < p0.len() && p0[t] == x;
                        assert(path@[t] == x);
                        assert(listed(path@, x));
                    }
                }
            }
            assert forall|t: int| 0 <= t < path@.len() implies !m0[#[trigger] path@[t] as int] by {
                if t < p0.len() {
                    assert(path@[t] == p0[t]);
                }
            }
            assert forall|s: int, t: int| #![trigger path@[s], path@[t]] 0 <= s < t < path@.len() implies path@[s] < path@[t] by {
                if t == path@.len() - 1 {
                    assert(p0[s] <= cur);
                } else {
                    assert(p0[s] < p0[t]);
                }
            }
        }
        cur = nx;
    }
    path
}

/// A sequence and its reverse list the same vertices.
proof fn lemma_reversed_listed(y: Seq<usize>, w: Seq<usize>, x: int)
    requires
        y.len() == w.len(),
        forall|s: int| 0 <= s < y.len() ==> #[trigger] y[s] == w[w.len() - 1 - s],
        0 <= x <= usize::MAX,
    ensures
        listed(y, x) <==> w.contains(x as usize),
{
    if listed(y, x) {
        let s = choose|s: int| 0 <= s < y.len() && y[s] == x;
        assert(w[w.len() - 1 - s] == x as usize);
    }
    if w.contains(x as usize) {
        let t = choose|t: int| 0 <= t < w.len() && w[t] == x as usize;
        let s = w.len() - 1 - t;
        assert(y[s] == w[w.len() - 1 - s]);
    }
}

/// The columns of the entries of row `k` of L, descendants before ancestors,
/// in the order in which the numeric factorization eliminates them: the walks
/// from the entries of column `k` of `a`, the last walk first, each walk from
/// its start upwards.
fn row_pattern<T>(a: &CscMatrix<T>, etree: &Vec<i64>, k: usize, marks: &mut Vec<bool>) -> (order: Vec<usize>)
    requires
        tree_of(a, etree@),
        k < a.n,
        old(marks)@.len() == a.n,
        forall|x: int| 0 <= x < a.n ==> !(#[trigger] old(marks)@[x]),
    ensures
        final(marks)@.len() == a.n,
        forall|x: int| 0 <= x < a.n ==> !(#[trigger] final(marks)@[x]),
        row_pattern_ok(a, etree@, k as int, order@),
        order@ == walk_order(a, etree@, k as int, a.col_ptr@[k + 1] as int),
{
    let n = a.n;
    let end = a.col_ptr[k + 1];
    let mut p = a.col_ptr[k];
    assert(a.col_ptr@[k as int] <= a.col_ptr@[k + 1]);
    assert(a.col_ptr@[k + 1] <= a.col_ptr@[n as int]);
    let mut y: Vec<usize> = Vec::new();
    while p < end
        invariant
            tree_of(a, etree@),
            n == a.n,
            k < n,
            end == a.col_ptr@[k + 1],
            end <= a.row_idx@.len(),
            a.col_ptr@[k as int] <= p <= end,
            marks@.len() == n,
            forall|x: int| 0 <= x < n ==> (#[trigger] marks@[x] <==> (x < k && column_reaches(a, etree@, k as int, p as int, x))),
            forall|x: int| 0 <= x < n ==> (#[trigger] marks@[x] <==> listed(y@, x)),
            forall|t: int| 0 <= t < y@.len() ==> #[trigger] y@[t] < k,
            forall|s: int, t: int| #![trigger y@[s], y@[t]] 0 <= t < s < y@.len() ==>
                y@[s] != y@[t] && !is_ancestor(etree@, y@[t] as int, y@[s] as int),
            y@.len() == walk_order(a, etree@, k as int, p as int).len(),
            forall|s: int| 0 <= s < y@.len() ==> #[trigger] y@[s] ==
                walk_order(a, etree@, k as int, p as int)[walk_order(a, etree@, k as int, p as int).len() - 1 - s],
        decreases end - p,
    {
        let i = a.row_idx[p];
        assert(a.entry_in_col(k as int, p as int));
        let ghost mk0 = marks@;
        let ghost y0 = y@;
        let ghost w0 = walk_order(a, etree@, k as int, p as int);
        let ghost w1 = walk_order(a, etree@, k as int, p + 1);
        assert(w1 == up_walk(etree@, k as int, i as int, w0) + w0);
        proof {
            assert forall|x: int| 0 <= x < n implies (#[trigger] marks@[x] <==> w0.contains(x as usize)) by {
                lemma_reversed_listed(y@, w0, x);
            }
        }
        if i < k && !marks[i] {
            proof {
                assert forall|yy: int, x: int| #![trigger marks@[yy], marks@[x]]
                    0 <= yy < k && 0 <= x < k && marks@[yy] && is_ancestor(etree@, yy, x) implies marks@[x] by {
                    let pp = choose|pp: int| a.col_ptr@[k as int] <= pp < p && #[trigger] is_ancestor(etree@, a.row_idx@[pp] as int, yy);
                    lemma_ancestor_trans(etree@, a.row_idx@[pp] as int, yy, x);
                    assert(column_reaches(a, etree@, k as int, p as int, x));
                }
            }
            let path = mark_path(a, etree, k, i, marks, Ghost(p as int), Ghost(w0));
            let mut t = path.len();
            while t > 0
                invariant
                    t <= path@.len(),
                    y@.len() == y0.len() + (path@.len() - t),
                    forall|s: int| 0 <= s < y0.len() ==> #[trigger] y@[s] == y0[s],
                    forall|s: int| y0.len() <= s < y@.len() ==> #[trigger] y@[s] == path@[path@.len() - 1 - (s - y0.len())],
                decreases t,
            {
                t = t - 1;
                y.push(path[t]);
            }
            proof {
                let l0 = y0.len() as int;
                let lp = path@.len() as int;
                assert forall|x: int| 0 <= x < n implies (#[trigger] marks@[x] <==> (x < k && column_reaches(a, etree@, k as int, p + 1, x))) by {
                    if column_reaches(a, etree@, k as int, p + 1, x) {
                        let pp = choose|pp: int| a.col_ptr@[k as int] <= pp < p + 1 && #[trigger] is_ancestor(etree@, a.row_idx@[pp] as int, x);
                        if pp < p {
                            assert(column_reaches(a, etree@, k as int, p as int, x));
                        }
                    }
                    if mk0[x] {
                        let pp = choose|pp: int| a.col_ptr@[k as int] <= pp < p && #[trigger] is_ancestor(etree@, a.row_idx@[pp] as int, x);
                        assert(column_reaches(a, etree@, k as int, p + 1, x));
                    }
                    if is_ancestor(etree@, i as int, x) && x < k {
                        assert(column_reaches(a, etree@, k as int, p + 1, x));
                    }
                }
                assert forall|x: int| 0 <= x < n implies (#[trigger] marks@[x] <==> listed(y@, x)) by {
                    if marks@[x] {
                        if mk0[x] {
                            let t = choose|t: int| 0 <= t < y0.len() && y0[t] == x;
                            assert(y@[t] == x);
                        } else {
                            let t = choose|t: int| 0 <= t < lp && path@[t] == x;
                            let s = l0 + (lp - 1 - t);
                            assert(y@[s] == x);
                        }
                    }
                    if listed(y@, x) {
                        let t = choose|t: int| 0 <= t < y@.len() && y@[t] == x;
                        if t < l0 {
                            assert(y0[t] == x);
                        } else {
                            let u = lp - 1 - (t - l0);
                            assert(path@[u] == x);
                        }
                    }
                }
                assert forall|t: int| 0 <= t < y@.len() implies #[trigger] y@[t] < k by {
                    if t >= l0 {
                        assert(path@[lp - 1 - (t - l0)] < k);
                    }
                }
                assert forall|s: int, t: int| #![trigger y@[s], y@[t]] 0 <= t < s < y@.len() implies
                    y@[s] != y@[t] && !is_ancestor(etree@, y@[t] as int, y@[s] as int) by {
                    if s < l0 {
                        assert(y@[s] == y0[s] && y@[t] == y0[t]);
                    } else if t < l0 {
                        let u = lp - 1 - (s - l0);
                        assert(y@[s] == path@[u]);
                        assert(!mk0[y@[s] as int]);
                        assert(mk0[y0[t] as int]) by {
                            assert(listed(y0, y0[t] as int));
                        }
                        if is_ancestor(etree@, y@[t] as int, y@[s] as int) {
                            assert(mk0[y@[s] as int]);
                        }
                        if y@[s] == y@[t] {
                            assert(y@[t] == y0[t]);
                        }
                    } else {
                        let us = lp - 1 - (s - l0);
                        let ut = lp - 1 - (t - l0);
                        assert(us < ut);
                        assert(path@[us] < path@[ut]);
                        if is_ancestor(etree@, y@[t] as int, y@[s] as int) {
                            lemma_ancestor_order(etree@, y@[t] as int, y@[s] as int);
                        }
                    }
                }
            }
            proof {
                let l0 = y0.len() as int;
                let lp = path@.len() as int;
                assert(path@ == up_walk(etree@, k as int, i as int, w0));
                assert(w1 == path@ + w0);
                assert(y@.len() == w1.len());
                assert forall|s: int| 0 <= s < y@.len() implies #[trigger] y@[s] == w1[w1.len() - 1 - s] by {
                    if s < l0 {
                        assert(y@[s] == y0[s]);
                        assert(y0[s] == w0[w0.len() - 1 - s]);
                        assert(w1[w1.len() - 1 - s] == w0[w0.len() - 1 - s]);
                    } else {
                        assert(y@[s] == path@[lp - 1 - (s - l0)]);
                        assert(w1[w1.len() - 1 - s] == path@[lp - 1 - (s - l0)]);
                    }
                }
            }
        } else {
            proof {
                assert(up_walk(etree@, k as int, i as int, w0) =~= Seq::<usize>::empty()) by {
                    if (i as int) < (k as int) {
                        assert(marks@[i as int]);
                        assert(w0.contains(i));
                    }
                }
                assert(w1 =~= w0);
            }
            proof {
                assert forall|x: int| 0 <= x < n implies (#[trigger] marks@[x] <==> (x < k && column_reaches(a, etree@, k as int, p + 1, x))) by {
                    if column_reaches(a, etree@, k as int, p + 1, x) && x < k {
                        let pp = choose|pp: int| a.col_ptr@[k as int] <= pp < p + 1 && #[trigger] is_ancestor(etree@, a.row_idx@[pp] as int, x);
                        if pp < p {
                            assert(column_reaches(a, etree@, k as int, p as int, x));
                        } else {
                            if i == k {
                                lemma_ancestor_order(etree@, k as int, x);
                            } else {
                                assert(marks@[i as int]);
                                let p2 = choose|p2: int| a.col_ptr@[k as int] <= p2 < p && #[trigger] is_ancestor(etree@, a.row_idx@[p2] as int, i as int);
                                lemma_ancestor_trans(etree@, a.row_idx@[p2] as int, i as int, x);
                                assert(column_reaches(a, etree@, k as int, p as int, x));
                            }
                        }
                    }
                }
            }
        }
        p = p + 1;
    }
    let ghost wend = walk_order(a, etree@, k as int, end as int);
    // descendants first: the reverse of the push order
    let ylen = y.len();
    let mut order: Vec<usize> = Vec::new();
    let mut t = ylen;
    while t > 0
        invariant
            t <= ylen,
            ylen == y@.len(),
            order@.len() == ylen - t,
            forall|s: int| 0 <= s < order@.len() ==> #[trigger] order@[s] == y@[ylen - 1 - s],
        decreases t,
    {
        t = t - 1;
        order.push(y[t]);
    }
    let ghost mk_end = marks@;
    let mut u: usize = 0;
    while u < ylen
        invariant
            u <= ylen,
            ylen == y@.len(),
            marks@.len() == n,
            forall|t: int| 0 <= t < y@.len() ==> #[trigger] y@[t] < k,
            k < n,
            forall|x: int| 0 <= x < n ==> (#[trigger] marks@[x] <==>
                (mk_end[x] && !exists|t: int| 0 <= t < u && y@[t] == x)),
            forall|x: int| 0 <= x < n ==> (#[trigger] mk_end[x] <==> listed(y@, x)),
        decreases ylen - u,
    {
        let ghost mk1 = marks@;
        marks.set(y[u], false);
        proof {
            assert forall|x: int| 0 <= x < n implies (#[trigger] marks@[x] <==>
                (mk_end[x] && !exists|t: int| 0 <= t < u + 1 && y@[t] == x)) by {
                if x == y@[u as int] as int {
                } else {
                    assert(marks@[x] == mk1[x]);
                    if exists|t: int| 0 <= t < u + 1 && y@[t] == x {
                        let t = choose|t: int| 0 <= t < u + 1 && y@[t] == x;
                        assert(t < u);
                    }
                }
            }
        }
        u = u + 1;
    }
    proof {
        assert forall|x: int| 0 <= x < n implies !(#[trigger] marks@[x]) by {
            if mk_end[x] {
                let t = choose|t: int| 0 <= t < y@.len() && y@[t] == x;
            }
        }
        let ord = order@;
        assert(ord =~= wend) by {
            assert forall|t: int| 0 <= t < ord.len() implies ord[t] == wend[t] by {
                assert(ord[t] == y@[ylen - 1 - t]);
            }
        }
        assert forall|t: int| 0 <= t < ord.len() implies #[trigger] in_l_col(a, etree@, ord[t] as int, k as int) by {
            let x = ord[t] as int;
            assert(ord[t] == y@[ylen - 1 - t]);
            assert(mk_end[x]);
            let pp = choose|pp: int| a.col_ptr@[k as int] <= pp < end && #[trigger] is_ancestor(etree@, a.row_idx@[pp] as int, x);
            assert(a.entry_in_col(k as int, pp));
        }
        assert forall|c: int| #[trigger] in_l_col(a, etree@, c, k as int) implies exists|t: int| 0 <= t < ord.len() && ord[t] == c by {
            let pp = choose|pp: int| #[trigger] a.entry_in_col(k as int, pp) && is_ancestor(etree@, a.row_idx@[pp] as int, c);
            lemma_ancestor_order(etree@, a.row_idx@[pp] as int, c);
            assert(column_reaches(a, etree@, k as int, end as int, c));
            assert(mk_end[c]);
            let t = choose|t: int| 0 <= t < y@.len() && y@[t] == c;
            assert(ord[ylen - 1 - t] == c);
        }
        assert forall|s: int, t: int| #![trigger ord[s], ord[t]] 0 <= s < t < ord.len() implies
            ord[s] != ord[t] && !is_ancestor(etree@, ord[t] as int, ord[s] as int) by {
            assert(ord[s] == y@[ylen - 1 - s] && ord[t] == y@[ylen - 1 - t]);
        }
    }
    order
}

impl LdlSymbolic {
    /// For every row `k`, the columns of the entries of row `k` of L, each
    /// once and descendants before ancestors, in the order in which the
    /// numeric factorization eliminates them (`walk_order`: the walks up the
    /// tree from the entries of column `k`, the last walk first, each from its
    /// start upwards).
    pub fn row_patterns<T>(&self, a: &CscMatrix<T>) -> (rows: Vec<Vec<usize>>)
        requires
            tree_of(a, self.etree@),
            self.n == a.n,
        ensures
            rows@.len() == a.n,
            forall|k: int| 0 <= k < a.n ==> row_pattern_ok(a, self.etree@, k, #[trigger] rows@[k]@),
            forall|k: int| 0 <= k < a.n ==> #[trigger] rows@[k]@ == walk_order(a, self.etree@, k, a.col_ptr@[k + 1] as int),
    {
        let n = a.n;
        let mut marks: Vec<bool> = Vec::new();
        let mut i: usize = 0;
        while i < n
            invariant
                i <= n,
                marks@.len() == i,
                forall|x: int| 0 <= x < i ==> !(#[trigger] marks@[x]),
            decreases n - i,
        {
            marks.push(false);
            i = i + 1;
        }
        let mut rows: Vec<Vec<usize>> = Vec::new();
        let mut k: usize = 0;
        while k < n
            invariant
                tree_of(a, self.etree@),
                n == a.n,
                k <= n,
                marks@.len() == n,
                forall|x: int| 0 <= x < n ==> !(#[trigger] marks@[x]),
                rows@.len() == k,
                forall|kk: int| 0 <= kk < k ==> row_pattern_ok(a, self.etree@, kk, #[trigger] rows@[kk]@),
                forall|kk: int| 0 <= kk < k ==> #[trigger] rows@[kk]@ == walk_order(a, self.etree@, kk, a.col_ptr@[kk + 1] as int),
            decreases n - k,
        {
            let r = row_pattern(a, &self.etree, k, &mut marks);
            rows.push(r);
            k = k + 1;
        }
        rows
    }
}

/// Ancestry of `i` depends only on the parents of the vertices below `i`.
proof fn lemma_ancestor_prefix(e1: Seq<i64>, e2: Seq<i64>, k: int, i: int)
    requires
        e1.len() == e2.len(),
        i <= e1.len(),
        forall|x: int| 0 <= x < i ==> #[trigger] e1[x] == e2[x],
    ensures
        is_ancestor(e1, k, i) == is_ancestor(e2, k, i),
    decreases i - k,
{
    reveal(is_ancestor);
    if k < i && 0 <= k {
        assert(e1[k] == e2[k]);
        let p = e1[k] as int;
        if k < p && p <= i {
            lemma_ancestor_prefix(e1, e2, p, i);
        }
    }
}

/// Matrices with the same pattern have the same columns of L for a tree.
proof fn lemma_l_col_pattern<T>(a1: &CscMatrix<T>, a2: &CscMatrix<T>, e: Seq<i64>, i: int, j: int)
    requires
        same_structure(a1, a2),
    ensures
        in_l_col(a1, e, i, j) == in_l_col(a2, e, i, j),
{
    if in_l_col(a1, e, i, j) {
        let p = choose|p: int| #[trigger] a1.entry_in_col(j, p) && is_ancestor(e, a1.row_idx@[p] as int, i);
        assert(a2.entry_in_col(j, p));
    }
    if in_l_col(a2, e, i, j) {
        let p = choose|p: int| #[trigger] a2.entry_in_col(j, p) && is_ancestor(e, a2.row_idx@[p] as int, i);
        assert(a1.entry_in_col(j, p));
    }
}

/// Matrices with the same pattern have the same column counts of L for a tree.
proof fn lemma_count_pattern<T>(a1: &CscMatrix<T>, a2: &CscMatrix<T>, e: Seq<i64>, i: int, upto: int)
    requires
        same_structure(a1, a2),
    ensures
        l_col_count(a1, e, i, upto) == l_col_count(a2, e, i, upto),
    decreases upto,
{
    if upto > 0 {
        lemma_count_pattern(a1, a2, e, i, upto - 1);
        lemma_l_col_pattern(a1, a2, e, i, upto - 1);
    }
}

/// Two elimination trees of matrices with the same pattern agree below `i`.
proof fn lemma_tree_prefix<T>(a1: &CscMatrix<T>, a2: &CscMatrix<T>, e1: Seq<i64>, e2: Seq<i64>, i: int)
    requires
        same_structure(a1, a2),
        e1.len() == e2.len(),
        0 <= i <= e1.len(),
        is_elimination_tree(a1, e1),
        is_elimination_tree(a2, e2),
    ensures
        forall|x: int| 0 <= x < i ==> #[trigger] e1[x] == e2[x],
    decreases i,
{
    if i > 0 {
        let x = i - 1;
        lemma_tree_prefix(a1, a2, e1, e2, x);
        assert forall|j: int| in_l_col(a1, e1, x, j) == #[trigger] in_l_col(a2, e2, x, j) by {
            lemma_l_col_pattern(a1, a2, e1, x, j);
            if in_l_col(a1, e1, x, j) {
                let p = choose|p: int| #[trigger] a1.entry_in_col(j, p) && is_ancestor(e1, a1.row_idx@[p] as int, x);
                lemma_ancestor_prefix(e1, e2, a1.row_idx@[p] as int, x);
                assert(a2.entry_in_col(j, p));
            }
            if in_l_col(a2, e2, x, j) {
                let p = choose|p: int| #[trigger] a2.entry_in_col(j, p) && is_ancestor(e2, a2.row_idx@[p] as int, x);
                lemma_ancestor_prefix(e1, e2, a2.row_idx@[p] as int, x);
                assert(a1.entry_in_col(j, p));
            }
        }
        assert(e1[x] == e2[x]) by {
            if e1[x] == UNKNOWN {
                if e2[x] != UNKNOWN {
                    assert(in_l_col(a2, e2, x, e2[x] as int));
                    assert(in_l_col(a1, e1, x, e2[x] as int));
                }
            } else if e2[x] == UNKNOWN {
                assert(in_l_col(a1, e1, x, e1[x] as int));
                assert(in_l_col(a2, e2, x, e1[x] as int));
            } else {
                assert(in_l_col(a1, e1, x, e1[x] as int));
                assert(in_l_col(a2, e2, x, e2[x] as int));
                assert(in_l_col(a2, e2, x, e1[x] as int));
                assert(in_l_col(a1, e1, x, e2[x] as int));
            }
        }
    }
}

/// The symbolic analysis is determined by the sparsity pattern alone: two
/// analyses (elimination tree, column counts and column pointers of L) of
/// matrices with the same pattern are equal, so an analysis made once serves
/// every later matrix of that pattern.
pub proof fn lemma_symbolic_determined<T>(a1: &CscMatrix<T>, a2: &CscMatrix<T>, s1: &LdlSymbolic, s2: &LdlSymbolic)
    requires
        same_structure(a1, a2),
        s1.wf(),
        s1.n == a1.n,
        is_elimination_tree(a1, s1.etree@),
        forall|i: int| 0 <= i < a1.n ==> #[trigger] s1.lnz@[i] == l_col_count(a1, s1.etree@, i, a1.n as int),
        s2.wf(),
        s2.n == a2.n,
        is_elimination_tree(a2, s2.etree@),
        forall|i: int| 0 <= i < a2.n ==> #[trigger] s2.lnz@[i] == l_col_count(a2, s2.etree@, i, a2.n as int),
    ensures
        s1.n == s2.n,
        s1.etree@ == s2.etree@,
        s1.lnz@ == s2.lnz@,
        s1.lp@ == s2.lp@,
{
    let n = s1.n as int;
    lemma_tree_prefix(a1, a2, s1.etree@, s2.etree@, n);
    assert(s1.etree@ =~= s2.etree@);
    assert forall|i: int| 0 <= i < n implies s1.lnz@[i] == s2.lnz@[i] by {
        assert(s1.lnz@[i] == l_col_count(a1, s1.etree@, i, n));
        assert(s2.lnz@[i] == l_col_count(a2, s2.etree@, i, n));
        lemma_count_pattern(a1, a2, s1.etree@, i, n);
    }
    assert(s1.lnz@ =~= s2.lnz@);
    lemma_running_sums(s1.lp@, s2.lp@, s1.lnz@, n + 1);
    assert(s1.lp@ =~= s2.lp@);
}

/// Running sums of one sequence from 0 agree.
proof fn lemma_running_sums(lp1: Seq<usize>, lp2: Seq<usize>, lnz: Seq<usize>, upto: int)
    requires
        0 <= upto <= lp1.len(),
        lp1.len() == lp2.len(),
        lp1.len() == lnz.len() + 1,
        lp1[0] == 0,
        lp2[0] == 0,
        forall|i: int| 0 <= i < lnz.len() ==> #[trigger] lp1[i + 1] == lp1[i] + lnz[i],
        forall|i: int| 0 <= i < lnz.len() ==> #[trigger] lp2[i + 1] == lp2[i] + lnz[i],
    ensures
        forall|i: int| 0 <= i < upto ==> #[trigger] lp1[i] == lp2[i],
    decreases upto,
{
    if upto > 1 {
        lemma_running_sums(lp1, lp2, lnz, upto - 1);
        let i = upto - 2;
        assert(lp1[i + 1] == lp1[i] + lnz[i]);
        assert(lp2[i + 1] == lp2[i] + lnz[i]);
    }
}

} // verus!
