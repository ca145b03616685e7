//! Compressed sparse column storage, generic over the scalar type.
//!
//! Everything here works on the sparsity structure: values are only moved,
//! never combined, so the module is independent of the numeric field.

use vstd::prelude::*;
use crate::perm::{is_permutation, is_inverse, invert_permutation};
use crate::assembly::{layout_triplets, positions_in_bounds, prow, pcol, TripletLayout};

verus! {

/// A sparse `m x n` matrix in compressed sparse column form.
///
/// The entries of column `j` are stored at positions
/// `col_ptr[j] .. col_ptr[j + 1]` of `row_idx` (their rows) and `x` (their values).
#[derive(Clone, Debug)]
pub struct CscMatrix<T> {
    pub m: usize,
    pub n: usize,
    pub col_ptr: Vec<usize>,
    pub row_idx: Vec<usize>,
    pub x: Vec<T>,
}

/// Column pointers of length `n + 1` that start at 0, never decrease and end at `nnz`.
pub open spec fn col_ptr_ok(col_ptr: Seq<usize>, n: int, nnz: int) -> bool {
    &&& col_ptr.len() == n + 1
    &&& col_ptr[0] == 0
    &&& forall|i: int, j: int|
        #![trigger col_ptr[i], col_ptr[j]]
        0 <= i <= j <= n ==> col_ptr[i] <= col_ptr[j]
    &&& col_ptr[n] == nnz
}

/// Position `p` belongs to column `j` under the column pointers `col_ptr`.
pub open spec fn in_col(col_ptr: Seq<usize>, n: int, j: int, p: int) -> bool {
    0 <= j < n && col_ptr[j] <= p < col_ptr[j + 1]
}

/// Within every column the row indices strictly increase.
pub open spec fn rows_sorted(col_ptr: Seq<usize>, row_idx: Seq<usize>, n: int) -> bool {
    forall|j: int, p: int, q: int|
        #![trigger in_col(col_ptr, n, j, p), in_col(col_ptr, n, j, q)]
        in_col(col_ptr, n, j, p) && in_col(col_ptr, n, j, q) && p < q ==> row_idx[p] < row_idx[q]
}

/// Every row index is below `m`.
pub open spec fn rows_bounded(row_idx: Seq<usize>, m: int) -> bool {
    forall|p: int| 0 <= p < row_idx.len() ==> #[trigger] row_idx[p] < m
}

/// A position lies in exactly one column.
pub proof fn lemma_in_col_unique(col_ptr: Seq<usize>, n: int, nnz: int, j1: int, j2: int, p: int)
    requires
        col_ptr_ok(col_ptr, n, nnz),
        in_col(col_ptr, n, j1, p),
        in_col(col_ptr, n, j2, p),
    ensures
        j1 == j2,
{
    if j1 < j2 {
        assert(col_ptr[j1 + 1] <= col_ptr[j2]);
    } else if j2 < j1 {
        assert(col_ptr[j2 + 1] <= col_ptr[j1]);
    }
}

/// Every stored position lies in some column.
pub proof fn lemma_col_exists(col_ptr: Seq<usize>, n: int, nnz: int, p: int)
    requires
        0 <= n,
        col_ptr_ok(col_ptr, n, nnz),
        0 <= p < nnz,
    ensures
        exists|j: int| #[trigger] in_col(col_ptr, n, j, p),
{
    lemma_col_exists_from(col_ptr, n, nnz, p, 0);
}

proof fn lemma_col_exists_from(col_ptr: Seq<usize>, n: int, nnz: int, p: int, j: int)
    requires
        col_ptr_ok(col_ptr, n, nnz),
        0 <= p < nnz,
        0 <= j <= n,
        col_ptr[j] <= p,
    ensures
        exists|jj: int| #[trigger] in_col(col_ptr, n, jj, p),
    decreases n - j,
{
    if j == n {
        assert(false);
    } else if p < col_ptr[j + 1] {
        assert(in_col(col_ptr, n, j, p));
    } else {
        lemma_col_exists_from(col_ptr, n, nnz, p, j + 1);
    }
}

/// Elementwise equality of two index vectors.
fn indices_equal(a: &Vec<usize>, b: &Vec<usize>) -> (r: bool)
    ensures
        r == (a@ == b@),
{
    if a.len() != b.len() {
        return false;
    }
    let mut i: usize = 0;
    while i < a.len()
        invariant
            a@.len() == b@.len(),
            i <= a@.len(),
            forall|k: int| 0 <= k < i ==> a@[k] == b@[k],
        decreases a@.len() - i,
    {
        if a[i] != b[i] {
            return false;
        }
        i = i + 1;
    }
    assert(a@ =~= b@);
    true
}

/// `k` is the last position of `rows` holding the value `rows[k]`.
pub open spec fn is_last(rows: Seq<usize>, k: int) -> bool {
    0 <= k < rows.len() && forall|k2: int| k < k2 < rows.len() ==> rows[k2] != rows[k]
}

/// For every row `r < m`, the position in `rows` of its last occurrence, if any.
fn last_positions(rows: &[usize], m: usize) -> (inv: Vec<Option<usize>>)
    requires
        forall|k: int| 0 <= k < rows@.len() ==> #[trigger] rows@[k] < m,
    ensures
        inv@.len() == m,
        forall|r: int| 0 <= r < m && (#[trigger] inv@[r]) is Some ==>
            rows@[inv@[r]->0 as int] == r && is_last(rows@, inv@[r]->0 as int),
        forall|k: int| #[trigger] is_last(rows@, k) ==> inv@[rows@[k] as int] == Some(k as usize),
{
    let mut inv: Vec<Option<usize>> = Vec::new();
    for r in 0..m
        invariant
            inv@.len() == r,
            forall|i: int| 0 <= i < r ==> #[trigger] inv@[i] == None::<usize>,
    {
        inv.push(None);
    }
    let len = rows.len();
    let mut k: usize = 0;
    while k < len
        invariant
            len == rows@.len(),
            k <= len,
            inv@.len() == m,
            forall|k: int| 0 <= k < rows@.len() ==> #[trigger] rows@[k] < m,
            forall|r: int| 0 <= r < m && (#[trigger] inv@[r]) is Some ==>
                inv@[r]->0 < k && rows@[inv@[r]->0 as int] == r
                && forall|k2: int| inv@[r]->0 < k2 < k ==> rows@[k2] != r,
            forall|kk: int| 0 <= kk < k && (forall|k2: int| kk < k2 < k ==> rows@[k2] != rows@[kk])
                ==> #[trigger] inv@[rows@[kk] as int] == Some(kk as usize),
        decreases len - k,
    {
        let r = rows[k];
        inv.set(r, Some(k));
        k = k + 1;
    }
    inv
}

/// The smaller of two integers.
pub open spec fn min_int(a: int, b: int) -> int {
    if a <= b { a } else { b }
}

/// The larger of two integers.
pub open spec fn max_int(a: int, b: int) -> int {
    if a <= b { b } else { a }
}

impl<T> CscMatrix<T> {
    /// The column pointers partition the entry arrays.
    pub open spec fn cols_ok(&self) -> bool {
        &&& col_ptr_ok(self.col_ptr@, self.n as int, self.row_idx@.len() as int)
        &&& self.x@.len() == self.row_idx@.len()
    }

    /// A structurally valid matrix: valid column pointers and rows below `m`.
    pub open spec fn wf(&self) -> bool {
        &&& self.cols_ok()
        &&& rows_bounded(self.row_idx@, self.m as int)
    }

    /// A valid matrix whose rows strictly increase within each column, so that
    /// every position `(i, j)` is stored at most once.
    pub open spec fn canonical(&self) -> bool {
        &&& self.wf()
        &&& rows_sorted(self.col_ptr@, self.row_idx@, self.n as int)
    }

    /// Stored position `p` lies in column `j`.
    pub open spec fn entry_in_col(&self, j: int, p: int) -> bool {
        in_col(self.col_ptr@, self.n as int, j, p)
    }

    /// The matrix stores value `v` at row `i`, column `j`.
    pub open spec fn has_entry(&self, i: int, j: int, v: T) -> bool {
        exists|p: int| #[trigger] self.entry_in_col(j, p) && self.row_idx@[p] == i && self.x@[p] == v
    }

    /// In a canonical matrix a position is stored at most once.
    pub proof fn lemma_position_unique(&self, j: int, p: int, q: int)
        requires
            self.canonical(),
            self.entry_in_col(j, p),
            self.entry_in_col(j, q),
            self.row_idx@[p] == self.row_idx@[q],
        ensures
            p == q,
    {
        if p < q {
            assert(in_col(self.col_ptr@, self.n as int, j, p) && in_col(self.col_ptr@, self.n as int, j, q));
        } else if q < p {
            assert(in_col(self.col_ptr@, self.n as int, j, q) && in_col(self.col_ptr@, self.n as int, j, p));
        }
    }

    /// Triplet `e` copies a stored entry before position `bound` whose row is
    /// selected as row `e.0` by `inv`.
    pub open spec fn trip_source(&self, inv: Seq<Option<usize>>, e: (usize, usize, T), bound: int) -> bool {
        exists|pp: int| #[trigger] self.entry_in_col(e.1 as int, pp) && pp < bound
            && inv[self.row_idx@[pp] as int] == Some(e.0) && self.x@[pp] == e.2
    }

    /// Number of stored entries.
    pub open spec fn spec_nnz(&self) -> int {
        self.row_idx@.len() as int
    }
}

/// `k` stores an entry at row `i`, column `j`.
pub open spec fn stores<T>(k: &CscMatrix<T>, i: int, j: int) -> bool {
    exists|q: int| #[trigger] k.entry_in_col(j, q) && k.row_idx@[q] == i
}

/// The two matrices have the same dimensions and the same stored positions;
/// their values may differ.
pub open spec fn same_structure<T>(x: &CscMatrix<T>, y: &CscMatrix<T>) -> bool {
    &&& x.m == y.m
    &&& x.n == y.n
    &&& x.col_ptr@ == y.col_ptr@
    &&& x.row_idx@ == y.row_idx@
}

/// Strictly increasing.
pub open spec fn strictly_sorted(s: Seq<usize>) -> bool {
    forall|a: int, b: int| #![trigger s[a], s[b]] 0 <= a < b < s.len() ==> s[a] < s[b]
}

/// Two strictly increasing sequences with the same elements are equal.
proof fn lemma_sorted_unique(s1: Seq<usize>, s2: Seq<usize>)
    requires
        strictly_sorted(s1),
        strictly_sorted(s2),
        forall|v: usize| #![trigger s1.contains(v)] #![trigger s2.contains(v)] s1.contains(v) <==> s2.contains(v),
    ensures
        s1 == s2,
    decreases s1.len() + s2.len(),
{
    if s1.len() == 0 {
        if s2.len() > 0 {
            assert(s2.contains(s2[0]));
        }
        assert(s1 =~= s2);
    } else if s2.len() == 0 {
        assert(s1.contains(s1[0]));
    } else {
        assert(s1.contains(s1[0]));
        assert(s2.contains(s2[0]));
        let i2 = choose|i: int| 0 <= i < s2.len() && s2[i] == s1[0];
        let i1 = choose|i: int| 0 <= i < s1.len() && s1[i] == s2[0];
        if i2 > 0 {
            assert(s2[0] < s2[i2]);
        }
        if i1 > 0 {
            assert(s1[0] < s1[i1]);
        }
        assert(s1[0] == s2[0]);
        let t1 = s1.drop_first();
        let t2 = s2.drop_first();
        assert forall|v: usize| #![trigger t1.contains(v)] #![trigger t2.contains(v)] t1.contains(v) <==> t2.contains(v) by {
            if t1.contains(v) {
                let a = choose|a: int| 0 <= a < t1.len() && t1[a] == v;
                assert(s1[a + 1] == v && s1[0] < s1[a + 1]);
                assert(s1.contains(v));
                let b = choose|b: int| 0 <= b < s2.len() && s2[b] == v;
                assert(b != 0);
                assert(t2[b - 1] == v);
            }
            if t2.contains(v) {
                let a = choose|a: int| 0 <= a < t2.len() && t2[a] == v;
                assert(s2[a + 1] == v && s2[0] < s2[a + 1]);
                assert(s2.contains(v));
                let b = choose|b: int| 0 <= b < s1.len() && s1[b] == v;
                assert(b != 0);
                assert(t1[b - 1] == v);
            }
        }
        assert(strictly_sorted(t1)) by {
            assert forall|a: int, b: int| #![trigger t1[a], t1[b]] 0 <= a < b < t1.len() implies t1[a] < t1[b] by {
                assert(s1[a + 1] < s1[b + 1]);
            }
        }
        assert(strictly_sorted(t2)) by {
            assert forall|a: int, b: int| #![trigger t2[a], t2[b]] 0 <= a < b < t2.len() implies t2[a] < t2[b] by {
                assert(s2[a + 1] < s2[b + 1]);
            }
        }
        lemma_sorted_unique(t1, t2);
        assert(s1 =~= s2) by {
            assert forall|i: int| 0 <= i < s1.len() implies s1[i] == s2[i] by {
                if i > 0 {
                    assert(s1[i] == t1[i - 1]);
                    assert(s2[i] == t2[i - 1]);
                }
            }
        }
    }
}

/// The rows stored in column `j` of `k`, in storage order.
pub open spec fn col_rows<T>(k: &CscMatrix<T>, j: int) -> Seq<usize> {
    k.row_idx@.subrange(k.col_ptr@[j] as int, k.col_ptr@[j + 1] as int)
}

/// The two matrices store the same value at the same positions.
pub open spec fn same_entries<T>(k1: &CscMatrix<T>, k2: &CscMatrix<T>) -> bool {
    forall|i: int, j: int, v: T| #![trigger k1.has_entry(i, j, v)] #![trigger k2.has_entry(i, j, v)]
        k1.has_entry(i, j, v) <==> k2.has_entry(i, j, v)
}

/// The two matrices store entries at the same positions, whatever the values.
pub open spec fn same_positions<T>(k1: &CscMatrix<T>, k2: &CscMatrix<T>) -> bool {
    forall|i: int, j: int| #![trigger stores(k1, i, j)] #![trigger stores(k2, i, j)]
        stores(k1, i, j) <==> stores(k2, i, j)
}

/// Column `j` of two canonical matrices with the same positions holds the same rows.
proof fn lemma_same_column<T>(k1: &CscMatrix<T>, k2: &CscMatrix<T>, j: int)
    requires
        k1.canonical(),
        k2.canonical(),
        k1.n == k2.n,
        same_positions(k1, k2),
        0 <= j < k1.n,
    ensures
        col_rows(k1, j) == col_rows(k2, j),
{
    let n = k1.n as int;
    let s1 = col_rows(k1, j);
    let s2 = col_rows(k2, j);
    let c1 = k1.col_ptr@[j] as int;
    let c2 = k2.col_ptr@[j] as int;
    assert(k1.col_ptr@[j] <= k1.col_ptr@[j + 1] && k1.col_ptr@[j + 1] <= k1.col_ptr@[n]);
    assert(k2.col_ptr@[j] <= k2.col_ptr@[j + 1] && k2.col_ptr@[j + 1] <= k2.col_ptr@[n]);
    assert(strictly_sorted(s1)) by {
        assert forall|a: int, b: int| #![trigger s1[a], s1[b]] 0 <= a < b < s1.len() implies s1[a] < s1[b] by {
            assert(in_col(k1.col_ptr@, n, j, c1 + a) && in_col(k1.col_ptr@, n, j, c1 + b));
        }
    }
    assert(strictly_sorted(s2)) by {
        assert forall|a: int, b: int| #![trigger s2[a], s2[b]] 0 <= a < b < s2.len() implies s2[a] < s2[b] by {
            assert(in_col(k2.col_ptr@, n, j, c2 + a) && in_col(k2.col_ptr@, n, j, c2 + b));
        }
    }
    assert forall|v: usize| #![trigger s1.contains(v)] #![trigger s2.contains(v)] s1.contains(v) <==> s2.contains(v) by {
        if s1.contains(v) {
            let a = choose|a: int| 0 <= a < s1.len() && s1[a] == v;
            assert(k1.entry_in_col(j, c1 + a));
            assert(stores(k1, v as int, j));
            assert(stores(k2, v as int, j));
            let p = choose|p: int| #[trigger] k2.entry_in_col(j, p) && k2.row_idx@[p] == v as int;
            assert(s2[p - c2] == v);
        }
        if s2.contains(v) {
            let a = choose|a: int| 0 <= a < s2.len() && s2[a] == v;
            assert(k2.entry_in_col(j, c2 + a));
            assert(stores(k2, v as int, j));
            assert(stores(k1, v as int, j));
            let p = choose|p: int| #[trigger] k1.entry_in_col(j, p) && k1.row_idx@[p] == v as int;
            assert(s1[p - c1] == v);
        }
    }
    lemma_sorted_unique(s1, s2);
}

/// The first `j` columns of two canonical matrices with the same positions agree.
proof fn lemma_equal_prefix<T>(k1: &CscMatrix<T>, k2: &CscMatrix<T>, j: int)
    requires
        k1.canonical(),
        k2.canonical(),
        k1.n == k2.n,
        same_positions(k1, k2),
        0 <= j <= k1.n,
    ensures
        forall|jj: int| 0 <= jj <= j ==> #[trigger] k1.col_ptr@[jj] == k2.col_ptr@[jj],
        forall|p: int| 0 <= p < k1.col_ptr@[j] ==> #[trigger] k1.row_idx@[p] == k2.row_idx@[p],
    decreases j,
{
    let n = k1.n as int;
    if j > 0 {
        let jp = j - 1;
        lemma_equal_prefix(k1, k2, jp);
        lemma_same_column(k1, k2, jp);
        let c = k1.col_ptr@[jp] as int;
        assert(k1.col_ptr@[jp] <= k1.col_ptr@[j] && k1.col_ptr@[j] <= k1.col_ptr@[n]);
        assert(k2.col_ptr@[jp] <= k2.col_ptr@[j] && k2.col_ptr@[j] <= k2.col_ptr@[n]);
        assert(col_rows(k1, jp).len() == col_rows(k2, jp).len());
        assert(k1.col_ptr@[j] == k2.col_ptr@[j]);
        assert forall|p: int| #![trigger k1.row_idx@[p]]
            0 <= p < k1.col_ptr@[j] implies k1.row_idx@[p] == k2.row_idx@[p] by {
            if p < c {
                assert(k1.row_idx@[p] == k2.row_idx@[p]);
            } else {
                assert(col_rows(k1, jp)[p - c] == col_rows(k2, jp)[p - c]);
            }
        }
    } else {
        assert(k1.col_ptr@[0] == 0 && k2.col_ptr@[0] == 0);
    }
}

/// The structure of a canonical matrix is determined by its stored positions:
/// two canonical matrices of the same shape that store entries at the same
/// positions have the same column pointers and rows.
pub proof fn lemma_canonical_pattern_determined<T>(k1: &CscMatrix<T>, k2: &CscMatrix<T>)
    requires
        k1.canonical(),
        k2.canonical(),
        k1.m == k2.m,
        k1.n == k2.n,
        same_positions(k1, k2),
    ensures
        same_structure(k1, k2),
{
    let n = k1.n as int;
    lemma_equal_prefix(k1, k2, n);
    assert(k1.col_ptr@[n] == k2.col_ptr@[n]);
    assert(k1.col_ptr@ =~= k2.col_ptr@);
    assert(k1.row_idx@ =~= k2.row_idx@);
}

/// A canonical matrix is determined by its entries: two canonical matrices of
/// the same shape that store the same values at the same positions have the
/// same column pointers, rows and values.
pub proof fn lemma_canonical_determined<T>(k1: &CscMatrix<T>, k2: &CscMatrix<T>)
    requires
        k1.canonical(),
        k2.canonical(),
        k1.m == k2.m,
        k1.n == k2.n,
        same_entries(k1, k2),
    ensures
        k1.col_ptr@ == k2.col_ptr@,
        k1.row_idx@ == k2.row_idx@,
        k1.x@ == k2.x@,
{
    assert forall|i: int, j: int| #![trigger stores(k1, i, j)] #![trigger stores(k2, i, j)]
        stores(k1, i, j) <==> stores(k2, i, j) by {
        if stores(k1, i, j) {
            let p = choose|p: int| #[trigger] k1.entry_in_col(j, p) && k1.row_idx@[p] == i;
            assert(k1.has_entry(i, j, k1.x@[p]));
            assert(k2.has_entry(i, j, k1.x@[p]));
        }
        if stores(k2, i, j) {
            let p = choose|p: int| #[trigger] k2.entry_in_col(j, p) && k2.row_idx@[p] == i;
            assert(k2.has_entry(i, j, k2.x@[p]));
            assert(k1.has_entry(i, j, k2.x@[p]));
        }
    }
    lemma_canonical_pattern_determined(k1, k2);
    let n = k1.n as int;
    assert forall|p: int| 0 <= p < k1.x@.len() implies k1.x@[p] == k2.x@[p] by {
        lemma_col_exists(k1.col_ptr@, n, k1.row_idx@.len() as int, p);
        let j = choose|j: int| in_col(k1.col_ptr@, n, j, p);
        assert(k1.entry_in_col(j, p));
        assert(k1.has_entry(k1.row_idx@[p] as int, j, k1.x@[p]));
        assert(k2.has_entry(k1.row_idx@[p] as int, j, k1.x@[p]));
        let q = choose|q: int| #[trigger] k2.entry_in_col(j, q) && k2.row_idx@[q] == k1.row_idx@[p] && k2.x@[q] == k1.x@[p];
        assert(k2.entry_in_col(j, p));
        k2.lemma_position_unique(j, p, q);
    }
    assert(k1.x@ =~= k2.x@);
}

/// `r` stores exactly the positions of the symmetric permutation of `a`,
/// stored by its upper triangle, by `perm`: `(i, j)` with `i <= j` whenever
/// `a` stores `(perm[i], perm[j])` or `(perm[j], perm[i])`.
pub open spec fn sym_permuted_positions<T>(a: &CscMatrix<T>, perm: Seq<usize>, r: &CscMatrix<T>) -> bool {
    forall|i: int, j: int| #![trigger stores(r, i, j)]
        stores(r, i, j) <==> (0 <= i <= j < a.n && (stores(a, perm[i] as int, perm[j] as int)
            || stores(a, perm[j] as int, perm[i] as int)))
}

/// Matrices with the same structure store the same positions.
proof fn lemma_structure_positions<T>(k1: &CscMatrix<T>, k2: &CscMatrix<T>)
    requires
        same_structure(k1, k2),
    ensures
        same_positions(k1, k2),
{
    assert forall|i: int, j: int| #![trigger stores(k1, i, j)] #![trigger stores(k2, i, j)]
        stores(k1, i, j) <==> stores(k2, i, j) by {
        if stores(k1, i, j) {
            let p = choose|p: int| #[trigger] k1.entry_in_col(j, p) && k1.row_idx@[p] == i;
            assert(k2.entry_in_col(j, p));
        }
        if stores(k2, i, j) {
            let p = choose|p: int| #[trigger] k2.entry_in_col(j, p) && k2.row_idx@[p] == i;
            assert(k1.entry_in_col(j, p));
        }
    }
}

/// Permuting two matrices of the same pattern by the same permutation gives
/// two matrices of the same pattern, whatever the values.
pub proof fn lemma_permute_same_pattern<T>(a1: &CscMatrix<T>, a2: &CscMatrix<T>, perm: Seq<usize>, r1: &CscMatrix<T>, r2: &CscMatrix<T>)
    requires
        same_structure(a1, a2),
        r1.canonical(),
        r2.canonical(),
        r1.m == r1.n,
        r2.m == r2.n,
        r1.n == a1.n,
        r2.n == a2.n,
        sym_permuted_positions(a1, perm, r1),
        sym_permuted_positions(a2, perm, r2),
    ensures
        same_structure(r1, r2),
{
    lemma_structure_positions(a1, a2);
    assert forall|i: int, j: int| #![trigger stores(r1, i, j)] #![trigger stores(r2, i, j)]
        stores(r1, i, j) <==> stores(r2, i, j) by {
        assert(stores(a1, perm[i] as int, perm[j] as int) == stores(a2, perm[i] as int, perm[j] as int));
        assert(stores(a1, perm[j] as int, perm[i] as int) == stores(a2, perm[j] as int, perm[i] as int));
    }
    lemma_canonical_pattern_determined(r1, r2);
}

/// Positions of a list of triplets.
pub open spec fn trip_pos<T>(trips: Seq<(usize, usize, T)>) -> Seq<(usize, usize)> {
    Seq::new(trips.len(), |t: int| (trips[t].0, trips[t].1))
}

/// No position occurs twice among the triplets.
pub open spec fn distinct_positions<T>(trips: Seq<(usize, usize, T)>) -> bool {
    forall|a: int, b: int| #![trigger trips[a], trips[b]]
        0 <= a < trips.len() && 0 <= b < trips.len() && a != b ==>
            (trips[a].0 != trips[b].0 || trips[a].1 != trips[b].1)
}

/// Every triplet lies inside an `m x n` matrix.
pub open spec fn trips_in_bounds<T>(trips: Seq<(usize, usize, T)>, m: int, n: int) -> bool {
    forall|t: int| #![trigger trips[t]] 0 <= t < trips.len() ==> trips[t].0 < m && trips[t].1 < n
}

fn positions_of<T: Copy>(trips: &[(usize, usize, T)]) -> (pos: Vec<(usize, usize)>)
    ensures
        pos@ == trip_pos(trips@),
{
    let mut pos: Vec<(usize, usize)> = Vec::new();
    for t in 0..trips.len()
        invariant
            pos@ == trip_pos(trips@).subrange(0, t as int),
    {
        pos.push((trips[t].0, trips[t].1));
        assert(pos@ =~= trip_pos(trips@).subrange(0, t + 1));
    }
    assert(pos@ =~= trip_pos(trips@));
    pos
}

impl<T: Copy> CscMatrix<T> {
    /// The empty `m x n` matrix.
    pub fn zeros(m: usize, n: usize) -> (r: Self)
        requires
            n < usize::MAX,
        ensures
            r.canonical(),
            r.m == m,
            r.n == n,
            r.spec_nnz() == 0,
    {
        let col_ptr = vec![0usize; n + 1];
        CscMatrix { m, n, col_ptr, row_idx: Vec::new(), x: Vec::new() }
    }

    /// The `n x n` identity pattern carrying `one` on the diagonal.
    pub fn identity(n: usize, one: T) -> (r: Self)
        requires
            n < usize::MAX,
        ensures
            r.canonical(),
            r.m == n,
            r.n == n,
            r.spec_nnz() == n,
            forall|j: int| 0 <= j <= n ==> #[trigger] r.col_ptr@[j] == j,
            forall|j: int| 0 <= j < n ==> #[trigger] r.row_idx@[j] == j,
            forall|j: int| 0 <= j < n ==> #[trigger] r.x@[j] == one,
    {
        let mut col_ptr: Vec<usize> = Vec::new();
        let mut row_idx: Vec<usize> = Vec::new();
        let mut x: Vec<T> = Vec::new();
        col_ptr.push(0);
        let mut j: usize = 0;
        while j < n
            invariant
                j <= n,
                n < usize::MAX,
                col_ptr@.len() == j + 1,
                row_idx@.len() == j,
                x@.len() == j,
                forall|i: int| 0 <= i <= j ==> #[trigger] col_ptr@[i] == i,
                forall|i: int| 0 <= i < j ==> #[trigger] row_idx@[i] == i,
                forall|i: int| 0 <= i < j ==> #[trigger] x@[i] == one,
            decreases n - j,
        {
            row_idx.push(j);
            x.push(one);
            col_ptr.push(j + 1);
            j = j + 1;
        }
        let r = CscMatrix { m: n, n, col_ptr, row_idx, x };
        assert(r.canonical()) by {
            assert forall|j: int, p: int, q: int|
                #![trigger in_col(r.col_ptr@, n as int, j, p), in_col(r.col_ptr@, n as int, j, q)]
                in_col(r.col_ptr@, n as int, j, p) && in_col(r.col_ptr@, n as int, j, q) && p < q
                implies r.row_idx@[p] < r.row_idx@[q] by {
                assert(r.col_ptr@[j] == j && r.col_ptr@[j + 1] == j + 1);
            }
        }
        r
    }

    /// The two matrices have the same dimensions and the same stored positions.
    pub fn same_pattern(&self, other: &Self) -> (r: bool)
        ensures
            r == same_structure(self, other),
    {
        self.m == other.m && self.n == other.n && indices_equal(&self.col_ptr, &other.col_ptr)
            && indices_equal(&self.row_idx, &other.row_idx)
    }

    /// Keep exactly the stored entries `p` with `keep[p]`, in order.
    pub fn retain_entries(&self, keep: &[bool]) -> (r: Self)
        requires
            self.wf(),
            keep@.len() == self.spec_nnz(),
        ensures
            r.wf(),
            r.m == self.m,
            r.n == self.n,
            self.canonical() ==> r.canonical(),
            forall|i: int, j: int, v: T| #[trigger] r.has_entry(i, j, v) <==>
                exists|p: int| #[trigger] self.entry_in_col(j, p) && keep@[p] && self.row_idx@[p] == i && self.x@[p] == v,
    {
        let n = self.n;
        let mut col_ptr: Vec<usize> = Vec::new();
        let mut row_idx: Vec<usize> = Vec::new();
        let mut x: Vec<T> = Vec::new();
        let ghost mut src: Seq<int> = Seq::empty();
        col_ptr.push(0);
        let mut j: usize = 0;
        while j < n
            invariant
                self.wf(),
                keep@.len() == self.spec_nnz(),
                n == self.n,
                j <= n,
                col_ptr_ok(col_ptr@, j as int, row_idx@.len() as int),
                x@.len() == row_idx@.len(),
                src.len() == row_idx@.len(),
                rows_bounded(row_idx@, self.m as int),
                forall|jj: int, q: int| #[trigger] in_col(col_ptr@, j as int, jj, q) ==>
                    self.entry_in_col(jj, src[q]) && keep@[src[q]]
                    && row_idx@[q] == self.row_idx@[src[q]] && x@[q] == self.x@[src[q]],
                forall|a: int, b: int| #![trigger src[a], src[b]] 0 <= a < b < src.len() ==> src[a] < src[b],
                forall|q: int| 0 <= q < src.len() ==> #[trigger] src[q] < self.col_ptr@[j as int],
                forall|jj: int, p: int| #[trigger] self.entry_in_col(jj, p) && jj < j && keep@[p] ==>
                    exists|q: int| #[trigger] in_col(col_ptr@, j as int, jj, q) && src[q] == p,
            decreases n - j,
        {
            let end = self.col_ptr[j + 1];
            let mut p = self.col_ptr[j];
            let start = row_idx.len();
            assert(self.col_ptr@[j as int] <= self.col_ptr@[j + 1]);
            assert(self.col_ptr@[j + 1] <= self.col_ptr@[n as int]);
            let ghost cp0 = col_ptr@;
            while p < end
                invariant
                    self.wf(),
                    keep@.len() == self.spec_nnz(),
                    n == self.n,
                    j < n,
                    end == self.col_ptr@[j + 1],
                    end <= self.row_idx@.len(),
                    self.col_ptr@[j as int] <= p <= end,
                    col_ptr@ == cp0,
                    col_ptr_ok(col_ptr@, j as int, start as int),
                    start <= row_idx@.len(),
                    x@.len() == row_idx@.len(),
                    src.len() == row_idx@.len(),
                    rows_bounded(row_idx@, self.m as int),
                    forall|jj: int, q: int| #[trigger] in_col(col_ptr@, j as int, jj, q) ==>
                        self.entry_in_col(jj, src[q]) && keep@[src[q]]
                        && row_idx@[q] == self.row_idx@[src[q]] && x@[q] == self.x@[src[q]],
                    forall|q: int| start <= q < src.len() ==> self.entry_in_col(j as int, #[trigger] src[q]) && keep@[src[q]]
                        && row_idx@[q] == self.row_idx@[src[q]] && x@[q] == self.x@[src[q]],
                    forall|a: int, b: int| #![trigger src[a], src[b]] 0 <= a < b < src.len() ==> src[a] < src[b],
                    forall|q: int| 0 <= q < src.len() ==> #[trigger] src[q] < p,
                    forall|q: int| 0 <= q < start ==> #[trigger] src[q] < self.col_ptr@[j as int],
                    forall|jj: int, pp: int| #[trigger] self.entry_in_col(jj, pp) && jj < j && keep@[pp] ==>
                        exists|q: int| #[trigger] in_col(col_ptr@, j as int, jj, q) && src[q] == pp,
                    forall|pp: int| self.col_ptr@[j as int] <= pp < p && keep@[pp] ==>
                        exists|q: int| start <= q < src.len() && #[trigger] src[q] == pp,
                decreases end - p,
            {
                if keep[p] {
                    row_idx.push(self.row_idx[p]);
                    x.push(self.x[p]);
                    proof {
                        let ghost old_src = src;
                        src = src.push(p as int);
                        assert(self.entry_in_col(j as int, p as int));
                        assert forall|jj: int, q: int| #[trigger] in_col(col_ptr@, j as int, jj, q) implies
                            self.entry_in_col(jj, src[q]) && keep@[src[q]]
                            && row_idx@[q] == self.row_idx@[src[q]] && x@[q] == self.x@[src[q]] by {
                            assert(col_ptr@[jj + 1] <= col_ptr@[j as int]);
                            assert(src[q] == old_src[q]);
                        }
                        assert forall|jj: int, pp: int| #[trigger] self.entry_in_col(jj, pp) && jj < j && keep@[pp] implies
                            exists|q: int| #[trigger] in_col(col_ptr@, j as int, jj, q) && src[q] == pp by {
                            let q = choose|q: int| #[trigger] in_col(col_ptr@, j as int, jj, q) && old_src[q] == pp;
                            assert(col_ptr@[jj + 1] <= col_ptr@[j as int]);
                            assert(src[q] == old_src[q]);
                        }
                        assert forall|pp: int| self.col_ptr@[j as int] <= pp < p + 1 && keep@[pp] implies
                            exists|q: int| start <= q < src.len() && #[trigger] src[q] == pp by {
                            if pp == p as int {
                                assert(src[src.len() - 1] == pp);
                            } else {
                                let q = choose|q: int| start <= q < old_src.len() && #[trigger] old_src[q] == pp;
                                assert(src[q] == old_src[q]);
                            }
                        }
                    }
                }
                p = p + 1;
            }
            let len = row_idx.len();
            col_ptr.push(len);
            proof {
                let jn = j as int + 1;
                assert forall|a: int, b: int| #![trigger col_ptr@[a], col_ptr@[b]] 0 <= a <= b <= jn implies col_ptr@[a] <= col_ptr@[b] by {
                    if b == jn && a < jn {
                        assert(cp0[a] <= cp0[j as int]);
                    }
                }
                assert forall|jj: int, q: int| #[trigger] in_col(col_ptr@, jn, jj, q) implies
                    self.entry_in_col(jj, src[q]) && keep@[src[q]]
                    && row_idx@[q] == self.row_idx@[src[q]] && x@[q] == self.x@[src[q]] by {
                    if jj < j {
                        assert(in_col(cp0, j as int, jj, q));
                    }
                }
                assert forall|jj: int, pp: int| #[trigger] self.entry_in_col(jj, pp) && jj < jn && keep@[pp] implies
                    exists|q: int| #[trigger] in_col(col_ptr@, jn, jj, q) && src[q] == pp by {
                    if jj < j {
                        let q = choose|q: int| #[trigger] in_col(cp0, j as int, jj, q) && src[q] == pp;
                        assert(in_col(col_ptr@, jn, jj, q));
                    } else {
                        let q = choose|q: int| start <= q < src.len() && #[trigger] src[q] == pp;
                        assert(in_col(col_ptr@, jn, jj, q));
                    }
                }
                assert forall|q: int| 0 <= q < src.len() implies #[trigger] src[q] < self.col_ptr@[jn] by {}
            }
            j = j + 1;
        }
        let r = CscMatrix { m: self.m, n, col_ptr, row_idx, x };
        proof {
            assert forall|i: int, jj: int, v: T| #[trigger] r.has_entry(i, jj, v) implies
                exists|p: int| #[trigger] self.entry_in_col(jj, p) && keep@[p] && self.row_idx@[p] == i && self.x@[p] == v by {
                let q = choose|q: int| #[trigger] r.entry_in_col(jj, q) && r.row_idx@[q] == i && r.x@[q] == v;
                assert(in_col(r.col_ptr@, n as int, jj, q));
                assert(self.entry_in_col(jj, src[q]));
            }
            assert forall|i: int, jj: int, v: T|
                (exists|p: int| #[trigger] self.entry_in_col(jj, p) && keep@[p] && self.row_idx@[p] == i && self.x@[p] == v)
                implies #[trigger] r.has_entry(i, jj, v) by {
                let p = choose|p: int| #[trigger] self.entry_in_col(jj, p) && keep@[p] && self.row_idx@[p] == i && self.x@[p] == v;
                let q = choose|q: int| #[trigger] in_col(r.col_ptr@, n as int, jj, q) && src[q] == p;
                assert(r.entry_in_col(jj, q));
            }
            if self.canonical() {
                assert forall|jj: int, a: int, b: int|
                    #![trigger in_col(r.col_ptr@, n as int, jj, a), in_col(r.col_ptr@, n as int, jj, b)]
                    in_col(r.col_ptr@, n as int, jj, a) && in_col(r.col_ptr@, n as int, jj, b) && a < b
                    implies r.row_idx@[a] < r.row_idx@[b] by {
                    assert(src[a] < src[b]);
                    assert(in_col(self.col_ptr@, n as int, jj, src[a]) && in_col(self.col_ptr@, n as int, jj, src[b]));
                }
            }
        }
        r
    }

    /// Number of stored entries.
    pub fn nnz(&self) -> (r: usize)
        ensures
            r == self.x@.len(),
    {
        self.x.len()
    }

    /// Build a matrix from triplets `(row, column, value)` whose positions are all distinct.
    pub fn from_unique_triplets(m: usize, n: usize, trips: &[(usize, usize, T)]) -> (r: Self)
        requires
            trips_in_bounds(trips@, m as int, n as int),
            distinct_positions(trips@),
            n < usize::MAX,
        ensures
            r.canonical(),
            r.m == m,
            r.n == n,
            forall|t: int| 0 <= t < trips@.len() ==>
                #[trigger] r.has_entry(trips@[t].0 as int, trips@[t].1 as int, trips@[t].2),
            forall|j: int, p: int| #[trigger] r.entry_in_col(j, p) ==>
                exists|t: int| 0 <= t < trips@.len() && #[trigger] trips@[t] == (r.row_idx@[p], j as usize, r.x@[p]),
    {
        let pos = positions_of(trips);
        proof {
            assert forall|t: int| #![trigger pos@[t]] 0 <= t < pos@.len() implies
                prow(pos@, t) < m && pcol(pos@, t) < n by {
                assert(trips@[t].0 < m && trips@[t].1 < n);
            }
        }
        let lay = layout_triplets(m, n, &pos);
        let nnz = lay.row_idx.len();
        let mut x: Vec<T> = Vec::new();
        for s in 0..nnz
            invariant
                nnz == lay.row_idx@.len(),
                lay.lays_out(pos@, m as int, n as int),
                pos@ == trip_pos(trips@),
                x@.len() == s,
                forall|i: int| 0 <= i < s ==> #[trigger] x@[i] == trips@[lay.first@[i] as int].2,
        {
            let f = lay.first[s];
            x.push(trips[f].2);
        }
        let TripletLayout { col_ptr, row_idx, slot, first } = lay;
        let r = CscMatrix { m, n, col_ptr, row_idx, x };
        proof {
            let k = trips@.len();
            assert forall|t: int| 0 <= t < k implies
                #[trigger] r.has_entry(trips@[t].0 as int, trips@[t].1 as int, trips@[t].2) by {
                let sl = slot@[t] as int;
                let f = first@[sl] as int;
                assert(pos@[t] == pos@[t]);
                assert(slot@[f] == sl);
                assert(f <= t);
                if f < t {
                    assert(in_col(col_ptr@, n as int, pcol(pos@, f), sl));
                    assert(in_col(col_ptr@, n as int, pcol(pos@, t), sl));
                    lemma_in_col_unique(col_ptr@, n as int, row_idx@.len() as int, pcol(pos@, f), pcol(pos@, t), sl);
                    assert(trips@[f].0 == trips@[t].0 && trips@[f].1 == trips@[t].1);
                }
                assert(r.entry_in_col(trips@[t].1 as int, sl));
            }
            assert forall|j: int, p: int| #[trigger] r.entry_in_col(j, p) implies
                exists|t: int| 0 <= t < trips@.len() && #[trigger] trips@[t] == (r.row_idx@[p], j as usize, r.x@[p]) by {
                let f = first@[p] as int;
                assert(slot@[f] == p);
                assert(pos@[f] == pos@[f]);
                lemma_in_col_unique(col_ptr@, n as int, row_idx@.len() as int, pcol(pos@, f), j, p);
                assert(trips@[f] == (r.row_idx@[p], j as usize, r.x@[p]));
            }
        }
        r
    }

    /// The upper-triangle triplets of a square matrix: entry `(i, j, v)` becomes
    /// `(min(i, j), max(i, j), v)`, in storage order.
    pub fn upper_triangle_triplets(&self) -> (trips: Vec<(usize, usize, T)>)
        requires
            self.wf(),
            self.m == self.n,
        ensures
            trips@.len() == self.spec_nnz(),
            forall|j: int, p: int| #[trigger] self.entry_in_col(j, p) ==>
                trips@[p] == (min_int(self.row_idx@[p] as int, j) as usize, max_int(self.row_idx@[p] as int, j) as usize, self.x@[p]),
    {
        let n = self.n;
        let mut trips: Vec<(usize, usize, T)> = Vec::new();
        let mut j: usize = 0;
        while j < n
            invariant
                self.wf(),
                n == self.n,
                j <= n,
                trips@.len() == self.col_ptr@[j as int],
                forall|jj: int, pp: int| #[trigger] self.entry_in_col(jj, pp) && pp < trips@.len() ==>
                    trips@[pp] == (min_int(self.row_idx@[pp] as int, jj) as usize, max_int(self.row_idx@[pp] as int, jj) as usize, self.x@[pp]),
            decreases n - j,
        {
            let end = self.col_ptr[j + 1];
            let mut p = self.col_ptr[j];
            assert(self.col_ptr@[j as int] <= self.col_ptr@[j + 1]);
            assert(self.col_ptr@[j + 1] <= self.col_ptr@[n as int]);
            while p < end
                invariant
                    self.wf(),
                    n == self.n,
                    j < n,
                    end == self.col_ptr@[j + 1],
                    end <= self.row_idx@.len(),
                    self.col_ptr@[j as int] <= p <= end,
                    trips@.len() == p,
                    forall|jj: int, pp: int| #[trigger] self.entry_in_col(jj, pp) && pp < trips@.len() ==>
                        trips@[pp] == (min_int(self.row_idx@[pp] as int, jj) as usize, max_int(self.row_idx@[pp] as int, jj) as usize, self.x@[pp]),
                decreases end - p,
            {
                let i = self.row_idx[p];
                if i <= j {
                    trips.push((i, j, self.x[p]));
                } else {
                    trips.push((j, i, self.x[p]));
                }
                assert forall|jj: int, pp: int| #[trigger] self.entry_in_col(jj, pp) && pp < trips@.len() implies
                    trips@[pp] == (min_int(self.row_idx@[pp] as int, jj) as usize, max_int(self.row_idx@[pp] as int, jj) as usize, self.x@[pp]) by {
                    if pp == p as int {
                        assert(self.entry_in_col(j as int, pp));
                        lemma_in_col_unique(self.col_ptr@, n as int, self.row_idx@.len() as int, jj, j as int, pp);
                    }
                }
                p = p + 1;
            }
            j = j + 1;
        }
        trips
    }

    /// Symmetric permutation `B = P A P'` of a square matrix stored by its upper
    /// triangle: with `perm[k]` the old index of new index `k`, the entry at old
    /// rows/columns `(perm[a], perm[b])` moves to `(min(a, b), max(a, b))`.
    pub fn permute_sym_upper(&self, perm: &[usize]) -> (r: Self)
        requires
            self.canonical(),
            self.m == self.n,
            self.n < usize::MAX,
            is_permutation(perm@, self.n as int),
            forall|j: int, p: int| #[trigger] self.entry_in_col(j, p) ==> self.row_idx@[p] <= j,
        ensures
            r.canonical(),
            r.m == self.n,
            r.n == self.n,
            forall|a: int, b: int, v: T| 0 <= a < self.n && 0 <= b < self.n
                && #[trigger] self.has_entry(perm@[a] as int, perm@[b] as int, v) ==>
                    r.has_entry(min_int(a, b), max_int(a, b), v),
            forall|i: int, j: int, v: T| #[trigger] r.has_entry(i, j, v) ==>
                i <= j && (self.has_entry(perm@[i] as int, perm@[j] as int, v)
                    || self.has_entry(perm@[j] as int, perm@[i] as int, v)),
            sym_permuted_positions(self, perm@, &r),
    {
        let n = self.n;
        let pinv = invert_permutation(perm);
        let mut trips: Vec<(usize, usize, T)> = Vec::new();
        let mut j: usize = 0;
        while j < n
            invariant
                self.canonical(),
                n == self.n,
                self.m == n,
                j <= n,
                is_inverse(perm@, pinv@, n as int),
                is_permutation(perm@, n as int),
                trips@.len() == self.col_ptr@[j as int],
                forall|jj: int, pp: int| #[trigger] self.entry_in_col(jj, pp) && pp < trips@.len() ==>
                    trips@[pp] == (min_int(pinv@[self.row_idx@[pp] as int] as int, pinv@[jj] as int) as usize,
                        max_int(pinv@[self.row_idx@[pp] as int] as int, pinv@[jj] as int) as usize, self.x@[pp]),
            decreases n - j,
        {
            let end = self.col_ptr[j + 1];
            let mut p = self.col_ptr[j];
            let pj = pinv[j];
            assert(self.col_ptr@[j as int] <= self.col_ptr@[j + 1]);
            assert(self.col_ptr@[j + 1] <= self.col_ptr@[n as int]);
            while p < end
                invariant
                    self.canonical(),
                    n == self.n,
                    j < n,
                    self.m == n,
                    pj == pinv@[j as int],
                    is_inverse(perm@, pinv@, n as int),
                    end == self.col_ptr@[j + 1],
                    end <= self.row_idx@.len(),
                    self.col_ptr@[j as int] <= p <= end,
                    trips@.len() == p,
                    forall|jj: int, pp: int| #[trigger] self.entry_in_col(jj, pp) && pp < trips@.len() ==>
                        trips@[pp] == (min_int(pinv@[self.row_idx@[pp] as int] as int, pinv@[jj] as int) as usize,
                            max_int(pinv@[self.row_idx@[pp] as int] as int, pinv@[jj] as int) as usize, self.x@[pp]),
                decreases end - p,
            {
                let i = self.row_idx[p];
                let pi = pinv[i];
                if pi <= pj {
                    trips.push((pi, pj, self.x[p]));
                } else {
                    trips.push((pj, pi, self.x[p]));
                }
                assert forall|jj: int, pp: int| #[trigger] self.entry_in_col(jj, pp) && pp < trips@.len() implies
                    trips@[pp] == (min_int(pinv@[self.row_idx@[pp] as int] as int, pinv@[jj] as int) as usize,
                        max_int(pinv@[self.row_idx@[pp] as int] as int, pinv@[jj] as int) as usize, self.x@[pp]) by {
                    if pp == p as int {
                        assert(self.entry_in_col(j as int, pp));
                        lemma_in_col_unique(self.col_ptr@, n as int, self.row_idx@.len() as int, jj, j as int, pp);
                    }
                }
                p = p + 1;
            }
            j = j + 1;
        }
        proof {
            let nnz = self.row_idx@.len() as int;
            assert(trips@.len() == nnz);
            assert forall|t: int| #![trigger trips@[t]] 0 <= t < trips@.len() implies trips@[t].0 < n && trips@[t].1 < n by {
                lemma_col_exists(self.col_ptr@, n as int, nnz, t);
                let jj = choose|jj: int| #[trigger] in_col(self.col_ptr@, n as int, jj, t);
                assert(self.entry_in_col(jj, t));
                assert(pinv@[self.row_idx@[t] as int] < n) by {
                    assert(perm@[pinv@[self.row_idx@[t] as int] as int] == self.row_idx@[t]);
                    assert(perm@.len() == n);
                }
                assert(pinv@[jj] < n) by {
                    assert(perm@[pinv@[jj] as int] == jj);
                }
            }
            assert forall|a: int, b: int| #![trigger trips@[a], trips@[b]]
                0 <= a < trips@.len() && 0 <= b < trips@.len() && a != b implies
                    (trips@[a].0 != trips@[b].0 || trips@[a].1 != trips@[b].1) by {
                lemma_col_exists(self.col_ptr@, n as int, nnz, a);
                lemma_col_exists(self.col_ptr@, n as int, nnz, b);
                let ja = choose|jj: int| #[trigger] in_col(self.col_ptr@, n as int, jj, a);
                let jb = choose|jj: int| #[trigger] in_col(self.col_ptr@, n as int, jj, b);
                assert(self.entry_in_col(ja, a));
                assert(self.entry_in_col(jb, b));
                let ia = self.row_idx@[a] as int;
                let ib = self.row_idx@[b] as int;
                if trips@[a].0 == trips@[b].0 && trips@[a].1 == trips@[b].1 {
                    assert(perm@[pinv@[ia] as int] == ia);
                    assert(perm@[pinv@[ib] as int] == ib);
                    assert(perm@[pinv@[ja] as int] == ja);
                    assert(perm@[pinv@[jb] as int] == jb);
                    assert(ia <= ja && ib <= jb);
                    assert(ia == ib && ja == jb);
                    self.lemma_position_unique(ja, a, b);
                }
            }
        }
        let r = Self::from_unique_triplets(n, n, &trips);
        proof {
            assert forall|a: int, b: int, v: T| 0 <= a < n && 0 <= b < n
                && #[trigger] self.has_entry(perm@[a] as int, perm@[b] as int, v) implies
                    r.has_entry(min_int(a, b), max_int(a, b), v) by {
                let p = choose|p: int| #[trigger] self.entry_in_col(perm@[b] as int, p)
                    && self.row_idx@[p] == perm@[a] as int && self.x@[p] == v;
                assert(pinv@[perm@[a] as int] == a);
                assert(pinv@[perm@[b] as int] == b);
                assert(trips@[p] == (min_int(a, b) as usize, max_int(a, b) as usize, v));
                assert(r.has_entry(trips@[p].0 as int, trips@[p].1 as int, trips@[p].2));
            }
            assert forall|i: int, j: int, v: T| #[trigger] r.has_entry(i, j, v) implies
                i <= j && (self.has_entry(perm@[i] as int, perm@[j] as int, v)
                    || self.has_entry(perm@[j] as int, perm@[i] as int, v)) by {
                let q = choose|q: int| #[trigger] r.entry_in_col(j, q) && r.row_idx@[q] == i && r.x@[q] == v;
                let t = choose|t: int| 0 <= t < trips@.len() && #[trigger] trips@[t] == (r.row_idx@[q], j as usize, r.x@[q]);
                lemma_col_exists(self.col_ptr@, n as int, self.row_idx@.len() as int, t);
                let jj = choose|jj: int| #[trigger] in_col(self.col_ptr@, n as int, jj, t);
                assert(self.entry_in_col(jj, t));
                let it = self.row_idx@[t] as int;
                assert(perm@[pinv@[it] as int] == it);
                assert(perm@[pinv@[jj] as int] == jj);
                if pinv@[it] <= pinv@[jj] {
                    assert(self.has_entry(perm@[i] as int, perm@[j] as int, v));
                } else {
                    assert(self.has_entry(perm@[j] as int, perm@[i] as int, v));
                }
            }
            assert forall|i: int, j: int| #![trigger stores(&r, i, j)] stores(&r, i, j) <==>
                (0 <= i <= j < n && (stores(self, perm@[i] as int, perm@[j] as int)
                    || stores(self, perm@[j] as int, perm@[i] as int))) by {
                if stores(&r, i, j) {
                    let q = choose|q: int| #[trigger] r.entry_in_col(j, q) && r.row_idx@[q] == i;
                    assert(r.has_entry(i, j, r.x@[q]));
                    assert(r.col_ptr@[j + 1] <= r.col_ptr@[n as int]);
                    assert(r.row_idx@[q] < n);
                    if self.has_entry(perm@[i] as int, perm@[j] as int, r.x@[q]) {
                        let p = choose|p: int| #[trigger] self.entry_in_col(perm@[j] as int, p)
                            && self.row_idx@[p] == perm@[i] as int && self.x@[p] == r.x@[q];
                        assert(stores(self, perm@[i] as int, perm@[j] as int));
                    } else {
                        let p = choose|p: int| #[trigger] self.entry_in_col(perm@[i] as int, p)
                            && self.row_idx@[p] == perm@[j] as int && self.x@[p] == r.x@[q];
                        assert(stores(self, perm@[j] as int, perm@[i] as int));
                    }
                }
                if 0 <= i <= j < n && stores(self, perm@[i] as int, perm@[j] as int) {
                    let p = choose|p: int| #[trigger] self.entry_in_col(perm@[j] as int, p)
                        && self.row_idx@[p] == perm@[i] as int;
                    assert(self.has_entry(perm@[i] as int, perm@[j] as int, self.x@[p]));
                    assert(r.has_entry(min_int(i, j), max_int(i, j), self.x@[p]));
                }
                if 0 <= i <= j < n && stores(self, perm@[j] as int, perm@[i] as int) {
                    let p = choose|p: int| #[trigger] self.entry_in_col(perm@[i] as int, p)
                        && self.row_idx@[p] == perm@[j] as int;
                    assert(self.has_entry(perm@[j] as int, perm@[i] as int, self.x@[p]));
                    assert(r.has_entry(min_int(j, i), max_int(j, i), self.x@[p]));
                }
            }
        }
        r
    }

    /// Extract rows `rows[0], rows[1], ...` as the rows of a new matrix, keeping
    /// column order and values. When a row is listed several times only its last
    /// listing receives the entries.
    #[verifier::rlimit(40)]
    pub fn select_rows(&self, rows: &[usize]) -> (r: Self)
        requires
            self.canonical(),
            self.n < usize::MAX,
            forall|k: int| 0 <= k < rows@.len() ==> #[trigger] rows@[k] < self.m,
        ensures
            r.canonical(),
            r.m == rows@.len(),
            r.n == self.n,
            forall|k: int, j: int, v: T| is_last(rows@, k) && #[trigger] self.has_entry(rows@[k] as int, j, v)
                ==> r.has_entry(k, j, v),
            forall|k: int, j: int, v: T| #[trigger] r.has_entry(k, j, v) ==>
                is_last(rows@, k) && self.has_entry(rows@[k] as int, j, v),
    {
        let n = self.n;
        let inv = last_positions(rows, self.m);
        let mut trips: Vec<(usize, usize, T)> = Vec::new();
        let mut j: usize = 0;
        while j < n
            invariant
                self.canonical(),
                n == self.n,
                j <= n,
                inv@.len() == self.m,
                forall|r: int| 0 <= r < self.m && (#[trigger] inv@[r]) is Some ==>
                    rows@[inv@[r]->0 as int] == r && is_last(rows@, inv@[r]->0 as int),
                forall|t: int| #![trigger trips@[t]] 0 <= t < trips@.len() ==>
                    self.trip_source(inv@, trips@[t], (self.col_ptr@[j as int]) as int),
                forall|jj: int, pp: int| #[trigger] self.entry_in_col(jj, pp) && pp < self.col_ptr@[j as int]
                    && inv@[self.row_idx@[pp] as int] is Some ==>
                    exists|t: int| 0 <= t < trips@.len()
                        && #[trigger] trips@[t] == (inv@[self.row_idx@[pp] as int]->0, jj as usize, self.x@[pp]),
                distinct_positions(trips@),
                trips_in_bounds(trips@, rows@.len() as int, n as int),
            decreases n - j,
        {
            let end = self.col_ptr[j + 1];
            let mut p = self.col_ptr[j];
            assert(self.col_ptr@[j as int] <= self.col_ptr@[j + 1]);
            assert(self.col_ptr@[j + 1] <= self.col_ptr@[n as int]);
            assert forall|t: int| #![trigger trips@[t]] 0 <= t < trips@.len() implies
                self.trip_source(inv@, trips@[t], (p) as int) by {
                let pp = choose|pp: int| #[trigger] self.entry_in_col(trips@[t].1 as int, pp) && pp < self.col_ptr@[j as int]
                    && inv@[self.row_idx@[pp] as int] == Some(trips@[t].0) && self.x@[pp] == trips@[t].2;
            }
            while p < end
                invariant
                    self.canonical(),
                    n == self.n,
                    j < n,
                    end == self.col_ptr@[j + 1],
                    end <= self.row_idx@.len(),
                    self.col_ptr@[j as int] <= p <= end,
                    inv@.len() == self.m,
                    forall|r: int| 0 <= r < self.m && (#[trigger] inv@[r]) is Some ==>
                        rows@[inv@[r]->0 as int] == r && is_last(rows@, inv@[r]->0 as int),
                    forall|t: int| #![trigger trips@[t]] 0 <= t < trips@.len() ==>
                        self.trip_source(inv@, trips@[t], (p) as int),
                    forall|jj: int, pp: int| #[trigger] self.entry_in_col(jj, pp) && pp < p
                        && inv@[self.row_idx@[pp] as int] is Some ==>
                        exists|t: int| 0 <= t < trips@.len()
                            && #[trigger] trips@[t] == (inv@[self.row_idx@[pp] as int]->0, jj as usize, self.x@[pp]),
                    distinct_positions(trips@),
                    trips_in_bounds(trips@, rows@.len() as int, n as int),
                decreases end - p,
            {
                let i = self.row_idx[p];
                let ghost old_t = trips@;
                assert(self.entry_in_col(j as int, p as int));
                match inv[i] {
                    Some(k) => {
                        proof {
                            assert forall|t: int| 0 <= t < old_t.len() implies
                                (old_t[t].0 != k || old_t[t].1 != j) by {
                                let pp = choose|pp: int| #[trigger] self.entry_in_col(old_t[t].1 as int, pp) && pp < p
                                    && inv@[self.row_idx@[pp] as int] == Some(old_t[t].0) && self.x@[pp] == old_t[t].2;
                                if old_t[t].0 == k && old_t[t].1 == j {
                                    assert(self.row_idx@[pp] == self.row_idx@[p as int]);
                                    self.lemma_position_unique(j as int, pp, p as int);
                                }
                            }
                        }
                        trips.push((k, j, self.x[p]));
                        assert(trips@[trips@.len() - 1] == (k, j, self.x@[p as int]));
                    }
                    None => {}
                }
                assert forall|t: int| #![trigger trips@[t]] 0 <= t < trips@.len() implies
                    self.trip_source(inv@, trips@[t], (p + 1) as int) by {
                    if t < old_t.len() {
                        assert(trips@[t] == old_t[t]);
                        let pp = choose|pp: int| #[trigger] self.entry_in_col(old_t[t].1 as int, pp) && pp < p
                            && inv@[self.row_idx@[pp] as int] == Some(old_t[t].0) && self.x@[pp] == old_t[t].2;
                        assert(self.entry_in_col(trips@[t].1 as int, pp) && pp < p + 1);
                    } else {
                        assert(self.entry_in_col(trips@[t].1 as int, p as int));
                    }
                }
                assert forall|jj: int, pp: int| #[trigger] self.entry_in_col(jj, pp) && pp < p + 1
                    && inv@[self.row_idx@[pp] as int] is Some implies
                    exists|t: int| 0 <= t < trips@.len()
                        && #[trigger] trips@[t] == (inv@[self.row_idx@[pp] as int]->0, jj as usize, self.x@[pp]) by {
                    let k = inv@[self.row_idx@[pp] as int]->0;
                    if pp == p as int {
                        lemma_in_col_unique(self.col_ptr@, n as int, self.row_idx@.len() as int, jj, j as int, pp);
                        assert(trips@[trips@.len() - 1] == (k, jj as usize, self.x@[pp]));
                    } else {
                        let t = choose|t: int| 0 <= t < old_t.len() && #[trigger] old_t[t] == (k, jj as usize, self.x@[pp]);
                        assert(trips@[t] == old_t[t]);
                    }
                }
                p = p + 1;
            }
            assert forall|t: int| #![trigger trips@[t]] 0 <= t < trips@.len() implies
                self.trip_source(inv@, trips@[t], (self.col_ptr@[j + 1]) as int) by {
                let pp = choose|pp: int| #[trigger] self.entry_in_col(trips@[t].1 as int, pp) && pp < p
                    && inv@[self.row_idx@[pp] as int] == Some(trips@[t].0) && self.x@[pp] == trips@[t].2;
            }
            j = j + 1;
        }
        let r = Self::from_unique_triplets(rows.len(), n, &trips);
        proof {
            assert forall|k: int, j: int, v: T| is_last(rows@, k) && #[trigger] self.has_entry(rows@[k] as int, j, v)
                implies r.has_entry(k, j, v) by {
                let pp = choose|pp: int| #[trigger] self.entry_in_col(j, pp) && self.row_idx@[pp] == rows@[k] as int && self.x@[pp] == v;
                assert(self.col_ptr@[j + 1] <= self.col_ptr@[n as int]);
                let t = choose|t: int| 0 <= t < trips@.len() && #[trigger] trips@[t] == (k as usize, j as usize, self.x@[pp]);
                assert(r.has_entry(trips@[t].0 as int, trips@[t].1 as int, trips@[t].2));
            }
            assert forall|k: int, j: int, v: T| #[trigger] r.has_entry(k, j, v) implies
                is_last(rows@, k) && self.has_entry(rows@[k] as int, j, v) by {
                let q = choose|q: int| #[trigger] r.entry_in_col(j, q) && r.row_idx@[q] == k && r.x@[q] == v;
                let t = choose|t: int| 0 <= t < trips@.len() && #[trigger] trips@[t] == (r.row_idx@[q], j as usize, r.x@[q]);
                let pp = choose|pp: int| #[trigger] self.entry_in_col(trips@[t].1 as int, pp) && pp < self.col_ptr@[n as int]
                    && inv@[self.row_idx@[pp] as int] == Some(trips@[t].0) && self.x@[pp] == trips@[t].2;
                assert(self.row_idx@[pp] < self.m);
            }
        }
        r
    }
}

} // verus!
