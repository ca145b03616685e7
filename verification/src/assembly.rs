//! Layout of a list of `(row, column)` positions as a sorted sparse pattern.
//!
//! Positions are ordered by column, then row, duplicates are merged into one
//! slot, and every input position learns the slot that holds it. A numeric
//! layer can then combine values slot by slot.

use vstd::prelude::*;
use crate::csc::{col_ptr_ok, in_col, rows_sorted, rows_bounded, lemma_in_col_unique};

verus! {

/// Row of input position `t`.
pub open spec fn prow(pos: Seq<(usize, usize)>, t: int) -> int {
    pos[t].0 as int
}

/// Column of input position `t`.
pub open spec fn pcol(pos: Seq<(usize, usize)>, t: int) -> int {
    pos[t].1 as int
}

/// Order on input indices: by row, then by index.
pub open spec fn key_lt(pos: Seq<(usize, usize)>, a: int, b: int) -> bool {
    prow(pos, a) < prow(pos, b) || (prow(pos, a) == prow(pos, b) && a < b)
}

/// All positions lie inside an `m x n` matrix.
pub open spec fn positions_in_bounds(pos: Seq<(usize, usize)>, m: int, n: int) -> bool {
    forall|t: int| #![trigger pos[t]] 0 <= t < pos.len() ==> prow(pos, t) < m && pcol(pos, t) < n
}

/// Sequence strictly increasing.
pub open spec fn strictly_increasing(s: Seq<usize>) -> bool {
    forall|a: int, b: int| #![trigger s[a], s[b]] 0 <= a < b < s.len() ==> s[a] < s[b]
}

/// Sequence strictly increasing in the row-then-index order.
pub open spec fn key_increasing(pos: Seq<(usize, usize)>, s: Seq<usize>) -> bool {
    forall|a: int, b: int| #![trigger s[a], s[b]] 0 <= a < b < s.len() ==> key_lt(pos, s[a] as int, s[b] as int)
}

/// Input indices grouped by row, each group in increasing order.
fn bucket_by_row(m: usize, pos: &[(usize, usize)]) -> (rowb: Vec<Vec<usize>>)
    requires
        positions_in_bounds(pos@, m as int, usize::MAX as int),
    ensures
        rowb@.len() == m,
        forall|r: int| 0 <= r < m ==> strictly_increasing(#[trigger] rowb@[r]@),
        forall|r: int, q: int| 0 <= r < m && 0 <= q < rowb@[r]@.len() ==>
            (#[trigger] rowb@[r]@[q]) < pos@.len() && prow(pos@, rowb@[r]@[q] as int) == r,
        forall|t: int| 0 <= t < pos@.len() ==> rowb@[prow(pos@, t)]@.contains(t as usize),
{
    let mut rowb: Vec<Vec<usize>> = Vec::new();
    for r in 0..m
        invariant
            rowb@.len() == r,
            forall|i: int| 0 <= i < r ==> (#[trigger] rowb@[i])@.len() == 0,
    {
        rowb.push(Vec::new());
    }
    let k = pos.len();
    for t in 0..k
        invariant
            k == pos@.len(),
            positions_in_bounds(pos@, m as int, usize::MAX as int),
            rowb@.len() == m,
            forall|r: int| 0 <= r < m ==> strictly_increasing(#[trigger] rowb@[r]@),
            forall|r: int, q: int| 0 <= r < m && 0 <= q < rowb@[r]@.len() ==>
                (#[trigger] rowb@[r]@[q]) < t && prow(pos@, rowb@[r]@[q] as int) == r,
            forall|e: int| 0 <= e < t ==> rowb@[prow(pos@, e)]@.contains(e as usize),
    {
        let r = pos[t].0;
        let ghost old_b = rowb@;
        rowb[r].push(t);
        assert forall|e: int| 0 <= e < t + 1 implies rowb@[prow(pos@, e)]@.contains(e as usize) by {
            if e == t {
                assert(rowb@[r as int]@[rowb@[r as int]@.len() - 1] == t);
            } else {
                let re = prow(pos@, e);
                assert(0 <= re < m);
                assert(old_b[re]@.contains(e as usize));
                let w = choose|w: int| 0 <= w < old_b[re]@.len() && old_b[re]@[w] == e as usize;
                if re == r as int {
                    assert(rowb@[re]@ == old_b[re]@.push(t));
                    assert(rowb@[re]@[w] == e as usize);
                } else {
                    assert(rowb@[re] == old_b[re]);
                }
                assert(rowb@[re]@[w] == e as usize);
            }
        }
        assert forall|ri: int| 0 <= ri < m implies strictly_increasing(#[trigger] rowb@[ri]@) by {
            if ri == r as int {
                let s = rowb@[ri]@;
                assert forall|a: int, b: int| 0 <= a < b < s.len() implies s[a] < s[b] by {
                    if b == s.len() - 1 {
                        assert(old_b[ri]@[a] < t);
                    } else {
                        assert(strictly_increasing(old_b[ri]@));
                        assert(old_b[ri]@[a] < old_b[ri]@[b]);
                    }
                }
            } else {
                assert(rowb@[ri] == old_b[ri]);
            }
        }
    }
    rowb
}

/// All input indices in increasing row-then-index order.
fn concat_rows(pos: &[(usize, usize)], rowb: &Vec<Vec<usize>>) -> (order: Vec<usize>)
    requires
        forall|r: int| 0 <= r < rowb@.len() ==> strictly_increasing(#[trigger] rowb@[r]@),
        forall|r: int, q: int| 0 <= r < rowb@.len() && 0 <= q < rowb@[r]@.len() ==>
            (#[trigger] rowb@[r]@[q]) < pos@.len() && prow(pos@, rowb@[r]@[q] as int) == r,
        forall|t: int| 0 <= t < pos@.len() ==> 0 <= prow(pos@, t) < rowb@.len()
            && rowb@[prow(pos@, t)]@.contains(t as usize),
    ensures
        key_increasing(pos@, order@),
        forall|i: int| 0 <= i < order@.len() ==> (#[trigger] order@[i]) < pos@.len(),
        forall|t: usize| t < pos@.len() ==> #[trigger] order@.contains(t),
{
    let mut order: Vec<usize> = Vec::new();
    let m = rowb.len();
    let mut r: usize = 0;
    while r < m
        invariant
            r <= m,
            m == rowb@.len(),
            forall|r: int| 0 <= r < rowb@.len() ==> strictly_increasing(#[trigger] rowb@[r]@),
            forall|r: int, q: int| 0 <= r < rowb@.len() && 0 <= q < rowb@[r]@.len() ==>
                (#[trigger] rowb@[r]@[q]) < pos@.len() && prow(pos@, rowb@[r]@[q] as int) == r,
            forall|t: int| 0 <= t < pos@.len() ==> 0 <= prow(pos@, t) < rowb@.len()
                && rowb@[prow(pos@, t)]@.contains(t as usize),
            key_increasing(pos@, order@),
            forall|i: int| 0 <= i < order@.len() ==> (#[trigger] order@[i]) < pos@.len()
                && prow(pos@, order@[i] as int) < r,
            forall|t: int| #![trigger pos@[t]] 0 <= t < pos@.len() && prow(pos@, t) < r ==> order@.contains(t as usize),
        decreases m - r,
    {
        let len = rowb[r].len();
        for q in 0..len
            invariant
                m == rowb@.len(),
                r < m,
                len == rowb@[r as int]@.len(),
                forall|r: int| 0 <= r < rowb@.len() ==> strictly_increasing(#[trigger] rowb@[r]@),
                forall|r: int, q: int| 0 <= r < rowb@.len() && 0 <= q < rowb@[r]@.len() ==>
                    (#[trigger] rowb@[r]@[q]) < pos@.len() && prow(pos@, rowb@[r]@[q] as int) == r,
                forall|t: int| 0 <= t < pos@.len() ==> 0 <= prow(pos@, t) < rowb@.len()
                    && rowb@[prow(pos@, t)]@.contains(t as usize),
                key_increasing(pos@, order@),
                forall|i: int| 0 <= i < order@.len() ==> (#[trigger] order@[i]) < pos@.len()
                    && (prow(pos@, order@[i] as int) < r || (prow(pos@, order@[i] as int) == r
                        && q > 0 && order@[i] <= rowb@[r as int]@[q - 1])),
                forall|t: int| #![trigger pos@[t]] 0 <= t < pos@.len() && prow(pos@, t) < r ==> order@.contains(t as usize),
                forall|qq: int| 0 <= qq < q ==> order@.contains(#[trigger] rowb@[r as int]@[qq]),
        {
            let t = rowb[r][q];
            let ghost old_o = order@;
            proof {
                if q > 0 {
                    assert(rowb@[r as int]@[q - 1] < rowb@[r as int]@[q as int]);
                }
            }
            order.push(t);
            assert forall|a: int, b: int| 0 <= a < b < order@.len() implies
                key_lt(pos@, order@[a] as int, order@[b] as int) by {
                if b == order@.len() - 1 {
                    assert(old_o[a] < pos@.len());
                } else {
                    assert(key_lt(pos@, old_o[a] as int, old_o[b] as int));
                }
            }
            assert forall|tt: int| 0 <= tt < pos@.len() && prow(pos@, tt) < r implies
                order@.contains(tt as usize) by {
                assert(old_o.contains(tt as usize));
                let w = choose|w: int| 0 <= w < old_o.len() && old_o[w] == tt as usize;
                assert(order@[w] == tt as usize);
            }
            assert forall|qq: int| 0 <= qq < q + 1 implies order@.contains(#[trigger] rowb@[r as int]@[qq]) by {
                if qq == q {
                    assert(order@[order@.len() - 1] == t);
                } else {
                    let e = rowb@[r as int]@[qq];
                    assert(old_o.contains(e));
                    let w = choose|w: int| 0 <= w < old_o.len() && old_o[w] == e;
                    assert(order@[w] == e);
                }
            }
        }
        assert forall|tt: int| 0 <= tt < pos@.len() && prow(pos@, tt) < r + 1 implies
            order@.contains(tt as usize) by {
            if prow(pos@, tt) == r {
                assert(rowb@[r as int]@.contains(tt as usize));
                let w = choose|w: int| 0 <= w < rowb@[r as int]@.len() && rowb@[r as int]@[w] == tt as usize;
                assert(order@.contains(rowb@[r as int]@[w]));
            }
        }
        r = r + 1;
    }
    assert forall|t: usize| t < pos@.len() implies #[trigger] order@.contains(t) by {
        assert(0 <= prow(pos@, t as int) < rowb@.len());
        assert(pos@[t as int] == pos@[t as int]);
    }
    order
}

/// Input indices grouped by column, each group in increasing row-then-index order.
fn bucket_by_col(n: usize, pos: &[(usize, usize)], order: &Vec<usize>) -> (colb: Vec<Vec<usize>>)
    requires
        positions_in_bounds(pos@, usize::MAX as int, n as int),
        key_increasing(pos@, order@),
        forall|i: int| 0 <= i < order@.len() ==> (#[trigger] order@[i]) < pos@.len(),
        forall|t: usize| t < pos@.len() ==> #[trigger] order@.contains(t),
    ensures
        colb@.len() == n,
        forall|j: int| 0 <= j < n ==> key_increasing(pos@, #[trigger] colb@[j]@),
        forall|j: int, q: int| 0 <= j < n && 0 <= q < colb@[j]@.len() ==>
            (#[trigger] colb@[j]@[q]) < pos@.len() && pcol(pos@, colb@[j]@[q] as int) == j,
        forall|t: usize| t < pos@.len() ==> #[trigger] colb@[pcol(pos@, t as int)]@.contains(t),
{
    let mut colb: Vec<Vec<usize>> = Vec::new();
    for j in 0..n
        invariant
            colb@.len() == j,
            forall|i: int| 0 <= i < j ==> (#[trigger] colb@[i])@.len() == 0,
    {
        colb.push(Vec::new());
    }
    let len = order.len();
    for idx in 0..len
        invariant
            len == order@.len(),
            positions_in_bounds(pos@, usize::MAX as int, n as int),
            key_increasing(pos@, order@),
            forall|i: int| 0 <= i < order@.len() ==> (#[trigger] order@[i]) < pos@.len(),
            colb@.len() == n,
            forall|j: int| 0 <= j < n ==> key_increasing(pos@, #[trigger] colb@[j]@),
            forall|j: int, q: int| 0 <= j < n && 0 <= q < colb@[j]@.len() ==>
                (#[trigger] colb@[j]@[q]) < pos@.len() && pcol(pos@, colb@[j]@[q] as int) == j
                && (idx < len ==> key_lt(pos@, colb@[j]@[q] as int, order@[idx as int] as int)),
            forall|i: int| 0 <= i < idx ==> #[trigger] colb@[pcol(pos@, order@[i] as int)]@.contains(order@[i]),
    {
        let t = order[idx];
        let c = pos[t].1;
        let ghost old_b = colb@;
        colb[c].push(t);
        assert forall|j: int| 0 <= j < n implies key_increasing(pos@, #[trigger] colb@[j]@) by {
            if j == c as int {
                let s = colb@[j]@;
                assert forall|a: int, b: int| 0 <= a < b < s.len() implies key_lt(pos@, s[a] as int, s[b] as int) by {
                    if b == s.len() - 1 {
                        assert(s[a] == old_b[j]@[a]);
                    } else {
                        assert(key_increasing(pos@, old_b[j]@));
                        assert(key_lt(pos@, old_b[j]@[a] as int, old_b[j]@[b] as int));
                    }
                }
            } else {
                assert(colb@[j] == old_b[j]);
            }
        }
        assert forall|j: int, q: int| 0 <= j < n && 0 <= q < colb@[j]@.len() implies
            (#[trigger] colb@[j]@[q]) < pos@.len() && pcol(pos@, colb@[j]@[q] as int) == j
            && (idx + 1 < len ==> key_lt(pos@, colb@[j]@[q] as int, order@[idx + 1] as int)) by {
            if idx + 1 < len {
                assert(key_lt(pos@, order@[idx as int] as int, order@[idx + 1] as int));
            }
            if j == c as int && q == colb@[j]@.len() - 1 {
            } else if j == c as int {
                assert(colb@[j]@[q] == old_b[j]@[q]);
            } else {
                assert(colb@[j] == old_b[j]);
            }
        }
        assert forall|i: int| 0 <= i < idx + 1 implies #[trigger] colb@[pcol(pos@, order@[i] as int)]@.contains(order@[i]) by {
            let e = order@[i];
            let ce = pcol(pos@, e as int);
            assert(pos@[e as int] == pos@[e as int]);
            if i == idx {
                assert(colb@[c as int]@[colb@[c as int]@.len() - 1] == t);
            } else {
                assert(old_b[ce]@.contains(e));
                let w = choose|w: int| 0 <= w < old_b[ce]@.len() && old_b[ce]@[w] == e;
                if ce == c as int {
                    assert(colb@[ce]@[w] == e);
                } else {
                    assert(colb@[ce] == old_b[ce]);
                }
            }
        }
    }
    assert forall|t: usize| t < pos@.len() implies #[trigger] colb@[pcol(pos@, t as int)]@.contains(t) by {
        assert(order@.contains(t));
        let i = choose|i: int| 0 <= i < order@.len() && order@[i] == t;
        assert(colb@[pcol(pos@, order@[i] as int)]@.contains(order@[i]));
    }
    colb
}

/// The sorted pattern of a list of positions together with the slot of every position.
///
/// `col_ptr` and `row_idx` describe the pattern; input position `t` is stored in
/// slot `slot[t]`; `first[s]` is the earliest input position stored in slot `s`.
pub struct TripletLayout {
    pub col_ptr: Vec<usize>,
    pub row_idx: Vec<usize>,
    pub slot: Vec<usize>,
    pub first: Vec<usize>,
}

impl TripletLayout {
    /// The layout is the sorted, duplicate-free pattern of `pos` in an `m x n` matrix.
    pub open spec fn lays_out(&self, pos: Seq<(usize, usize)>, m: int, n: int) -> bool {
        &&& col_ptr_ok(self.col_ptr@, n, self.row_idx@.len() as int)
        &&& rows_bounded(self.row_idx@, m)
        &&& rows_sorted(self.col_ptr@, self.row_idx@, n)
        &&& self.slot@.len() == pos.len()
        &&& forall|t: int| #![trigger self.slot@[t]] 0 <= t < pos.len() ==>
            in_col(self.col_ptr@, n, pcol(pos, t), self.slot@[t] as int)
            && self.row_idx@[self.slot@[t] as int] == prow(pos, t)
        &&& self.first@.len() == self.row_idx@.len()
        &&& forall|s: int| #![trigger self.first@[s]] 0 <= s < self.first@.len() ==>
            self.first@[s] < pos.len() && self.slot@[self.first@[s] as int] == s
            && forall|t: int| 0 <= t < self.first@[s] ==> #[trigger] self.slot@[t] != s
    }
}

/// Slot group starts: the first index of each run of equal rows in `col`.
pub open spec fn group_start(pos: Seq<(usize, usize)>, col: Seq<usize>, qs: int) -> bool {
    qs == 0 || prow(pos, col[qs - 1] as int) < prow(pos, col[qs] as int)
}

/// Append the slots of one column group `col` (sorted by row, then index).
fn merge_column(
    row_idx: &mut Vec<usize>,
    first: &mut Vec<usize>,
    slot: &mut Vec<usize>,
    pos: &[(usize, usize)],
    col: &Vec<usize>,
    m: usize,
    Ghost(j): Ghost<int>,
)
    requires
        positions_in_bounds(pos@, m as int, usize::MAX as int),
        key_increasing(pos@, col@),
        forall|qq: int| 0 <= qq < col@.len() ==>
            (#[trigger] col@[qq]) < pos@.len() && pcol(pos@, col@[qq] as int) == j,
        old(first)@.len() == old(row_idx)@.len(),
        old(slot)@.len() == pos@.len(),
        rows_bounded(old(row_idx)@, m as int),
    ensures
        final(row_idx)@.len() >= old(row_idx)@.len(),
        final(row_idx)@.subrange(0, old(row_idx)@.len() as int) == old(row_idx)@,
        final(first)@.subrange(0, old(first)@.len() as int) == old(first)@,
        final(first)@.len() == final(row_idx)@.len(),
        final(slot)@.len() == pos@.len(),
        rows_bounded(final(row_idx)@, m as int),
        forall|a: int, b: int| #![trigger final(row_idx)@[a], final(row_idx)@[b]]
            old(row_idx)@.len() <= a < b < final(row_idx)@.len() ==> final(row_idx)@[a] < final(row_idx)@[b],
        forall|t: int| #![trigger final(slot)@[t]] 0 <= t < pos@.len() && pcol(pos@, t) != j ==> final(slot)@[t] == old(slot)@[t],
        forall|qq: int| 0 <= qq < col@.len() ==>
            old(row_idx)@.len() <= #[trigger] final(slot)@[col@[qq] as int] < final(row_idx)@.len()
            && final(row_idx)@[final(slot)@[col@[qq] as int] as int] == prow(pos@, col@[qq] as int),
        forall|s: int| #![trigger final(first)@[s]] old(first)@.len() <= s < final(first)@.len() ==>
            exists|qs: int| 0 <= qs < col@.len() && #[trigger] col@[qs] == final(first)@[s]
                && group_start(pos@, col@, qs) && final(slot)@[final(first)@[s] as int] == s,
{
    let k = pos.len();
    let start = row_idx.len();
    let len = col.len();
    let ghost slot0 = slot@;
    let ghost row0 = row_idx@;
    let ghost first0 = first@;
    let mut q: usize = 0;
    while q < len
        invariant
            q <= len,
            len == col@.len(),
            k == pos@.len(),
            positions_in_bounds(pos@, m as int, usize::MAX as int),
            key_increasing(pos@, col@),
            forall|qq: int| 0 <= qq < len ==>
                (#[trigger] col@[qq]) < k && pcol(pos@, col@[qq] as int) == j,
            start == row0.len(),
            start <= row_idx@.len(),
            row_idx@.subrange(0, start as int) == row0,
            first@.subrange(0, start as int) == first0,
            first0.len() == start,
            first@.len() == row_idx@.len(),
            slot@.len() == k,
            rows_bounded(row_idx@, m as int),
            q == 0 <==> row_idx@.len() == start,
            q > 0 ==> row_idx@[row_idx@.len() - 1] == prow(pos@, col@[q - 1] as int),
            forall|a: int, b: int| #![trigger row_idx@[a], row_idx@[b]]
                start <= a < b < row_idx@.len() ==> row_idx@[a] < row_idx@[b],
            forall|t: int| #![trigger slot@[t]] 0 <= t < k && pcol(pos@, t) != j ==> slot@[t] == slot0[t],
            forall|qq: int| 0 <= qq < q ==> start <= #[trigger] slot@[col@[qq] as int] < row_idx@.len()
                && row_idx@[slot@[col@[qq] as int] as int] == prow(pos@, col@[qq] as int),
            forall|s: int| #![trigger first@[s]] start <= s < first@.len() ==>
                exists|qs: int| 0 <= qs < q && #[trigger] col@[qs] == first@[s]
                    && group_start(pos@, col@, qs) && slot@[first@[s] as int] == s,
        decreases len - q,
    {
        let t = col[q];
        let r = pos[t].0;
        proof {
            if q > 0 {
                assert(key_lt(pos@, col@[q - 1] as int, col@[q as int] as int));
            }
        }
        let ghost slot1 = slot@;
        let ghost first1 = first@;
        if row_idx.len() > start && row_idx[row_idx.len() - 1] == r {
            let s = row_idx.len() - 1;
            slot.set(t, s);
            assert forall|s2: int| #![trigger first@[s2]] start <= s2 < first@.len() implies
                exists|qs: int| 0 <= qs < q + 1 && #[trigger] col@[qs] == first@[s2]
                    && group_start(pos@, col@, qs) && slot@[first@[s2] as int] == s2 by {
                let qs = choose|qs: int| 0 <= qs < q && #[trigger] col@[qs] == first1[s2]
                    && group_start(pos@, col@, qs) && slot1[first1[s2] as int] == s2;
                assert(key_lt(pos@, col@[qs] as int, col@[q as int] as int));
            }
        } else {
            let s = row_idx.len();
            proof {
                assert forall|a: int| start <= a < row_idx@.len() implies row_idx@[a] < r by {
                    if a < row_idx@.len() - 1 {
                        assert(row_idx@[a] < row_idx@[row_idx@.len() - 1]);
                    }
                }
            }
            row_idx.push(r);
            first.push(t);
            slot.set(t, s);
            assert(row_idx@.subrange(0, start as int) =~= row0);
            assert(first@.subrange(0, start as int) =~= first0);
            assert forall|s2: int| #![trigger first@[s2]] start <= s2 < first@.len() implies
                exists|qs: int| 0 <= qs < q + 1 && #[trigger] col@[qs] == first@[s2]
                    && group_start(pos@, col@, qs) && slot@[first@[s2] as int] == s2 by {
                if s2 == s as int {
                    assert(col@[q as int] == first@[s2]);
                } else {
                    let qs = choose|qs: int| 0 <= qs < q && #[trigger] col@[qs] == first1[s2]
                        && group_start(pos@, col@, qs) && slot1[first1[s2] as int] == s2;
                    assert(key_lt(pos@, col@[qs] as int, col@[q as int] as int));
                    assert(col@[qs] == first@[s2]);
                }
            }
        }
        assert forall|qq: int| 0 <= qq < q + 1 implies start <= #[trigger] slot@[col@[qq] as int] < row_idx@.len()
            && row_idx@[slot@[col@[qq] as int] as int] == prow(pos@, col@[qq] as int) by {
            if qq < q {
                assert(key_lt(pos@, col@[qq] as int, col@[q as int] as int));
                assert(slot@[col@[qq] as int] == slot1[col@[qq] as int]);
            }
        }
        q = q + 1;
    }
}

/// Walk the column groups and merge equal rows into shared slots.
fn merge_columns(m: usize, n: usize, pos: &[(usize, usize)], colb: &Vec<Vec<usize>>) -> (lay: TripletLayout)
    requires
        positions_in_bounds(pos@, m as int, n as int),
        colb@.len() == n,
        forall|j: int| 0 <= j < n ==> key_increasing(pos@, #[trigger] colb@[j]@),
        forall|j: int, q: int| 0 <= j < n && 0 <= q < colb@[j]@.len() ==>
            (#[trigger] colb@[j]@[q]) < pos@.len() && pcol(pos@, colb@[j]@[q] as int) == j,
        forall|t: usize| t < pos@.len() ==> #[trigger] colb@[pcol(pos@, t as int)]@.contains(t),
        n < usize::MAX,
    ensures
        lay.lays_out(pos@, m as int, n as int),
{
    let k = pos.len();
    let mut slot: Vec<usize> = vec![0usize; k];
    let mut row_idx: Vec<usize> = Vec::new();
    let mut first: Vec<usize> = Vec::new();
    let mut col_ptr: Vec<usize> = Vec::new();
    col_ptr.push(0);
    let mut j: usize = 0;
    while j < n
        invariant
            j <= n,
            k == pos@.len(),
            positions_in_bounds(pos@, m as int, n as int),
            colb@.len() == n,
            forall|j: int| 0 <= j < n ==> key_increasing(pos@, #[trigger] colb@[j]@),
            forall|j: int, q: int| 0 <= j < n && 0 <= q < colb@[j]@.len() ==>
                (#[trigger] colb@[j]@[q]) < pos@.len() && pcol(pos@, colb@[j]@[q] as int) == j,
            forall|t: usize| t < pos@.len() ==> #[trigger] colb@[pcol(pos@, t as int)]@.contains(t),
            col_ptr_ok(col_ptr@, j as int, row_idx@.len() as int),
            first@.len() == row_idx@.len(),
            slot@.len() == k,
            rows_bounded(row_idx@, m as int),
            rows_sorted(col_ptr@, row_idx@, j as int),
            forall|t: int| #![trigger slot@[t]] 0 <= t < k && pcol(pos@, t) < j ==>
                in_col(col_ptr@, j as int, pcol(pos@, t), slot@[t] as int)
                && row_idx@[slot@[t] as int] == prow(pos@, t),
            forall|s: int| #![trigger first@[s]] 0 <= s < first@.len() ==>
                first@[s] < k && pcol(pos@, first@[s] as int) < j && slot@[first@[s] as int] == s
                && forall|t: int| 0 <= t < first@[s] && pcol(pos@, t) < j ==> #[trigger] slot@[t] != s,
        decreases n - j,
    {
        let start = row_idx.len();
        let len = colb[j].len();
        let ghost slot0 = slot@;
        let ghost row0 = row_idx@;
        let ghost first0 = first@;
        merge_column(&mut row_idx, &mut first, &mut slot, pos, &colb[j], m, Ghost(j as int));
        let end = row_idx.len();
        let ghost cp0 = col_ptr@;
        assert(col_ptr@[j as int] == start);
        col_ptr.push(end);
        proof {
            let jn = j as int + 1;
            assert forall|a: int, b: int| #![trigger col_ptr@[a], col_ptr@[b]] 0 <= a <= b <= jn implies col_ptr@[a] <= col_ptr@[b] by {
                if b == jn {
                    if a < jn {
                        assert(cp0[a] <= cp0[j as int]);
                    }
                }
            }
            assert(col_ptr_ok(col_ptr@, jn, row_idx@.len() as int));
            assert forall|p: int| 0 <= p < row_idx@.len() implies #[trigger] row_idx@[p] < m by {}
            // columns before j keep their rows
            assert forall|p: int| 0 <= p < start implies row_idx@[p] == row0[p] by {
                assert(row_idx@.subrange(0, start as int)[p] == row0[p]);
            }
            assert forall|p: int| 0 <= p < start implies first@[p] == first0[p] by {
                assert(first@.subrange(0, start as int)[p] == first0[p]);
            }
            assert forall|jj: int, p: int, p2: int|
                #![trigger in_col(col_ptr@, jn, jj, p), in_col(col_ptr@, jn, jj, p2)]
                in_col(col_ptr@, jn, jj, p) && in_col(col_ptr@, jn, jj, p2) && p < p2 implies row_idx@[p] < row_idx@[p2] by {
                if jj < j {
                    assert(col_ptr@[jj + 1] <= cp0[j as int]);
                    assert(in_col(cp0, j as int, jj, p) && in_col(cp0, j as int, jj, p2));
                    assert(row0[p] < row0[p2]);
                }
            }
            assert forall|t: int| #![trigger slot@[t]] 0 <= t < k && pcol(pos@, t) < jn implies
                in_col(col_ptr@, jn, pcol(pos@, t), slot@[t] as int)
                && row_idx@[slot@[t] as int] == prow(pos@, t) by {
                if pcol(pos@, t) < j {
                    assert(slot@[t] == slot0[t]);
                    assert(in_col(cp0, j as int, pcol(pos@, t), slot0[t] as int));
                    assert(cp0[pcol(pos@, t) + 1] <= cp0[j as int]);
                    assert(row0[slot0[t] as int] == prow(pos@, t));
                } else {
                    assert(colb@[j as int]@.contains(t as usize));
                    let qt = choose|qt: int| 0 <= qt < len && colb@[j as int]@[qt] == t as usize;
                    assert(start <= slot@[colb@[j as int]@[qt] as int] < row_idx@.len());
                }
            }
            assert forall|s: int| #![trigger first@[s]] 0 <= s < first@.len() implies
                first@[s] < k && pcol(pos@, first@[s] as int) < jn && slot@[first@[s] as int] == s
                && forall|t: int| 0 <= t < first@[s] && pcol(pos@, t) < jn ==> #[trigger] slot@[t] != s by {
                if s < start {
                    let f = first@[s];
                    assert(f == first0[s]);
                    assert(slot@[f as int] == slot0[f as int]);
                    assert forall|t: int| 0 <= t < f && pcol(pos@, t) < jn implies #[trigger] slot@[t] != s by {
                        if pcol(pos@, t) == j {
                            assert(colb@[j as int]@.contains(t as usize));
                            let qt = choose|qt: int| 0 <= qt < len && colb@[j as int]@[qt] == t as usize;
                            assert(start <= slot@[colb@[j as int]@[qt] as int]);
                        } else {
                            assert(slot@[t] == slot0[t]);
                        }
                    }
                } else {
                    let f = first@[s];
                    let qs = choose|qs: int| 0 <= qs < len && #[trigger] colb@[j as int]@[qs] == f
                        && group_start(pos@, colb@[j as int]@, qs) && slot@[f as int] == s;
                    assert forall|t: int| 0 <= t < f && pcol(pos@, t) < jn implies #[trigger] slot@[t] != s by {
                        if pcol(pos@, t) < j {
                            assert(slot@[t] == slot0[t]);
                            assert(in_col(cp0, j as int, pcol(pos@, t), slot0[t] as int));
                            assert(cp0[pcol(pos@, t) + 1] <= cp0[j as int]);
                        } else {
                            assert(colb@[j as int]@.contains(t as usize));
                            let qt = choose|qt: int| 0 <= qt < len && colb@[j as int]@[qt] == t as usize;
                            if slot@[t] == s {
                                assert(row_idx@[slot@[colb@[j as int]@[qt] as int] as int] == prow(pos@, t));
                                assert(prow(pos@, t) == prow(pos@, f as int));
                                if qt > qs {
                                    assert(key_lt(pos@, colb@[j as int]@[qs] as int, colb@[j as int]@[qt] as int));
                                } else if qt < qs {
                                    assert(qs > 0);
                                    if qt < qs - 1 {
                                        assert(key_lt(pos@, colb@[j as int]@[qt] as int, colb@[j as int]@[qs - 1] as int));
                                    }
                                }
                            }
                        }
                    }
                }
            }
        }
        j = j + 1;
    }
    TripletLayout { col_ptr, row_idx, slot, first }
}

/// Lay out positions `pos` of an `m x n` matrix: sort them by column and row,
/// merge duplicates into one slot, and record the slot of every position.
pub fn layout_triplets(m: usize, n: usize, pos: &[(usize, usize)]) -> (lay: TripletLayout)
    requires
        positions_in_bounds(pos@, m as int, n as int),
        n < usize::MAX,
    ensures
        lay.lays_out(pos@, m as int, n as int),
{
    let rowb = bucket_by_row(m, pos);
    let order = concat_rows(pos, &rowb);
    let colb = bucket_by_col(n, pos, &order);
    merge_columns(m, n, pos, &colb)
}

} // verus!
