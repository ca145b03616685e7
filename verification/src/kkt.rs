//! Sparsity patterns of the quasi-definite KKT matrices
//!
//! ```text
//! K = [ P + sigma I   A' ]
//!     [ A            -D  ]
//! ```
//!
//! stored by their upper triangle. `D` is a diagonal (operator splitting) or
//! a block diagonal with one block per cone (interior point). Every stored
//! entry of `K` is labelled with the source of its value, so the numeric layer
//! can fill and refill values on a fixed pattern.

use vstd::prelude::*;
use crate::csc::{CscMatrix, stores, distinct_positions, in_col, lemma_in_col_unique, same_structure, same_entries, lemma_canonical_determined};
use crate::cones::{Cone, CompositeCone, tri_len, lemma_tri_len_step, lemma_tri_len_mono, lemma_cones_disjoint};

verus! {

/// Where the value of a stored entry of `K` comes from.
#[derive(Clone, Copy, Debug, PartialEq, Eq, Structural)]
pub enum KktSource {
    /// Entry `p` of the upper triangle of `P` (the diagonal ones shifted by sigma).
    P(usize),
    /// Diagonal `j` of the primal block where `P` stores nothing: sigma alone.
    SigmaDiag(usize),
    /// Entry `p` of `A`, stored transposed above the diagonal.
    A(usize),
    /// Row `r` of the dual diagonal.
    DualDiag(usize),
    /// Entry `t` of the packed scaling block of cone block `b`.
    Hs(usize, usize),
}

/// One cone's block of the dual scaling matrix, with `off` its first row
/// among the dual rows. `indices` holds one slot per packed entry.
#[derive(Clone, Debug)]
pub enum HsBlock {
    /// A diagonal block of dimension `indices.len()`.
    Diagonal { off: usize, indices: Vec<usize> },
    /// A dense block of dimension `dim`, packed by its upper triangle column by column.
    DenseUpper { off: usize, dim: usize, indices: Vec<usize> },
}

impl HsBlock {
    pub open spec fn spec_off(&self) -> int {
        match self {
            HsBlock::Diagonal { off, .. } => *off as int,
            HsBlock::DenseUpper { off, .. } => *off as int,
        }
    }

    pub open spec fn spec_dim(&self) -> int {
        match self {
            HsBlock::Diagonal { indices, .. } => indices@.len() as int,
            HsBlock::DenseUpper { dim, .. } => *dim as int,
        }
    }

    pub open spec fn spec_indices(&self) -> Seq<usize> {
        match self {
            HsBlock::Diagonal { indices, .. } => indices@,
            HsBlock::DenseUpper { indices, .. } => indices@,
        }
    }

    /// `(i, j)` is a stored position of the block's upper triangle.
    pub open spec fn block_pos(&self, i: int, j: int) -> bool {
        match self {
            HsBlock::Diagonal { indices, .. } => 0 <= i < indices@.len() && i == j,
            HsBlock::DenseUpper { dim, .. } => 0 <= i <= j < *dim,
        }
    }

    /// The packed index of the stored position `(i, j)` of the block.
    pub open spec fn packed_index(&self, i: int, j: int) -> int {
        match self {
            HsBlock::Diagonal { .. } => i,
            HsBlock::DenseUpper { .. } => tri_len(j) + i,
        }
    }

    /// Packed entry `t` of this block sits at row `i`, column `j` of the block.
    pub open spec fn packed_at(&self, t: int, i: int, j: int) -> bool {
        match self {
            HsBlock::Diagonal { indices, .. } => 0 <= t < indices@.len() && i == t && j == t,
            HsBlock::DenseUpper { dim, .. } => 0 <= i <= j < *dim && t == tri_len(j) + i,
        }
    }
}

/// The blocks lie one after the other inside the `m` dual rows, and a dense
/// block has one slot per entry of its upper triangle.
pub open spec fn blocks_ok(blocks: Seq<HsBlock>, m: int) -> bool {
    &&& forall|b: int| 0 <= b < blocks.len() ==>
        0 <= (#[trigger] blocks[b]).spec_off() && blocks[b].spec_off() + blocks[b].spec_dim() <= m
    &&& forall|b1: int, b2: int| #![trigger blocks[b1], blocks[b2]] 0 <= b1 < b2 < blocks.len() ==>
        blocks[b1].spec_off() + blocks[b1].spec_dim() <= blocks[b2].spec_off()
    &&& forall|b: int| 0 <= b < blocks.len() ==> (#[trigger] blocks[b] is DenseUpper ==>
        blocks[b].spec_indices().len() == tri_len(blocks[b].spec_dim()))
}

/// The triplet of block `b` (which is `blk`) at its position `(i, j)`.
pub open spec fn hs_entry(n: int, blk: HsBlock, b: int, i: int, j: int) -> (usize, usize, KktSource) {
    ((n + blk.spec_off() + i) as usize, (n + blk.spec_off() + j) as usize,
        KktSource::Hs(b as usize, blk.packed_index(i, j) as usize))
}

/// Column `j` of `pu` stores its diagonal entry.
pub open spec fn has_diag<T>(pu: &CscMatrix<T>, j: int) -> bool {
    exists|q: int| #[trigger] pu.entry_in_col(j, q) && pu.row_idx@[q] == j
}

/// Rank of the kind of a source, in assembly order.
pub open spec fn src_rank(s: KktSource) -> int {
    match s {
        KktSource::P(_) => 0,
        KktSource::SigmaDiag(_) => 1,
        KktSource::A(_) => 2,
        KktSource::DualDiag(_) => 3,
        KktSource::Hs(_, _) => 4,
    }
}

/// Assembly order on sources: by kind, then by index.
pub open spec fn src_lt(x: KktSource, y: KktSource) -> bool {
    src_rank(x) < src_rank(y) || (src_rank(x) == src_rank(y) && match (x, y) {
        (KktSource::P(a), KktSource::P(b)) => a < b,
        (KktSource::SigmaDiag(a), KktSource::SigmaDiag(b)) => a < b,
        (KktSource::A(a), KktSource::A(b)) => a < b,
        (KktSource::DualDiag(a), KktSource::DualDiag(b)) => a < b,
        (KktSource::Hs(b1, t1), KktSource::Hs(b2, t2)) => b1 < b2 || (b1 == b2 && t1 < t2),
        _ => false,
    })
}

/// Triplet `e` places the value of its source at the position where that
/// source belongs in `K`.
pub open spec fn source_ok<T>(pu: &CscMatrix<T>, a: &CscMatrix<T>, blocks: Seq<HsBlock>, e: (usize, usize, KktSource)) -> bool {
    let n = pu.n as int;
    match e.2 {
        KktSource::P(p) => pu.entry_in_col(e.1 as int, p as int) && pu.row_idx@[p as int] == e.0,
        KktSource::SigmaDiag(j) => e.0 == j && e.1 == j && j < n && !has_diag(pu, j as int),
        KktSource::A(p) => a.entry_in_col(e.0 as int, p as int) && e.1 == n + a.row_idx@[p as int],
        KktSource::DualDiag(r) => e.0 == n + r && e.1 == n + r && r < a.m && blocks.len() == 0,
        KktSource::Hs(b, t) => 0 <= b < blocks.len()
            && blocks[b as int].packed_at(t as int, e.0 - n - blocks[b as int].spec_off(), e.1 - n - blocks[b as int].spec_off()),
    }
}

/// Shapes the assembly needs: `pu` is the upper triangle of a square `n x n`
/// matrix, `a` is `m x n`, both canonical.
pub open spec fn kkt_inputs_ok<T>(pu: &CscMatrix<T>, a: &CscMatrix<T>) -> bool {
    &&& pu.canonical()
    &&& a.canonical()
    &&& pu.m == pu.n
    &&& a.n == pu.n
    &&& pu.n + a.m < usize::MAX
    &&& forall|j: int, p: int| #[trigger] pu.entry_in_col(j, p) ==> pu.row_idx@[p] <= j
}

/// Triplets in increasing assembly order, all at their sources' positions.
pub open spec fn trips_ok<T>(pu: &CscMatrix<T>, a: &CscMatrix<T>, blocks: Seq<HsBlock>, trips: Seq<(usize, usize, KktSource)>) -> bool {
    &&& forall|t: int| 0 <= t < trips.len() ==> source_ok(pu, a, blocks, #[trigger] trips[t])
    &&& forall|x: int, y: int| #![trigger trips[x], trips[y]] 0 <= x < y < trips.len() ==> src_lt(trips[x].2, trips[y].2)
}

/// Two triplets at the same position carry the same source.
proof fn lemma_position_determines_source<T>(pu: &CscMatrix<T>, a: &CscMatrix<T>, blocks: Seq<HsBlock>,
    e1: (usize, usize, KktSource), e2: (usize, usize, KktSource))
    requires
        kkt_inputs_ok(pu, a),
        blocks_ok(blocks, a.m as int),
        source_ok(pu, a, blocks, e1),
        source_ok(pu, a, blocks, e2),
        e1.0 == e2.0,
        e1.1 == e2.1,
    ensures
        e1.2 == e2.2,
{
    let n = pu.n as int;
    match (e1.2, e2.2) {
        (KktSource::P(p1), KktSource::P(p2)) => {
            pu.lemma_position_unique(e1.1 as int, p1 as int, p2 as int);
        }
        (KktSource::P(p1), KktSource::SigmaDiag(j)) => {
            assert(has_diag(pu, j as int));
        }
        (KktSource::SigmaDiag(j), KktSource::P(p2)) => {
            assert(has_diag(pu, j as int));
        }
        (KktSource::A(p1), KktSource::A(p2)) => {
            a.lemma_position_unique(e1.0 as int, p1 as int, p2 as int);
        }
        (KktSource::A(p1), KktSource::Hs(_, _)) => {}
        (KktSource::Hs(_, _), KktSource::A(p2)) => {}
        (KktSource::Hs(b1, t1), KktSource::Hs(b2, t2)) => {
            let bk1 = blocks[b1 as int];
            let bk2 = blocks[b2 as int];
            let i1 = e1.0 - n - bk1.spec_off();
            let j1 = e1.1 - n - bk1.spec_off();
            let i2 = e2.0 - n - bk2.spec_off();
            let j2 = e2.1 - n - bk2.spec_off();
            assert(0 <= j1 < bk1.spec_dim());
            assert(0 <= j2 < bk2.spec_dim());
            if b1 < b2 {
                assert(bk1.spec_off() + bk1.spec_dim() <= bk2.spec_off());
            } else if b2 < b1 {
                assert(bk2.spec_off() + bk2.spec_dim() <= bk1.spec_off());
            } else {
                assert(i1 == i2 && j1 == j2);
            }
        }
        (KktSource::Hs(b1, t1), _) => {
            let bk1 = blocks[b1 as int];
            assert(0 <= bk1.spec_off());
            assert(e1.0 - n - bk1.spec_off() >= 0);
        }
        (_, KktSource::Hs(b2, t2)) => {
            let bk2 = blocks[b2 as int];
            assert(0 <= bk2.spec_off());
            assert(e2.0 - n - bk2.spec_off() >= 0);
        }
        _ => {}
    }
}

/// Triplets in assembly order at their sources' positions have distinct positions.
proof fn lemma_trips_distinct<T>(pu: &CscMatrix<T>, a: &CscMatrix<T>, blocks: Seq<HsBlock>, trips: Seq<(usize, usize, KktSource)>)
    requires
        kkt_inputs_ok(pu, a),
        blocks_ok(blocks, a.m as int),
        trips_ok(pu, a, blocks, trips),
    ensures
        distinct_positions(trips),
{
    assert forall|x: int, y: int| #![trigger trips[x], trips[y]]
        0 <= x < trips.len() && 0 <= y < trips.len() && x != y implies
            (trips[x].0 != trips[y].0 || trips[x].1 != trips[y].1) by {
        if trips[x].0 == trips[y].0 && trips[x].1 == trips[y].1 {
            lemma_position_determines_source(pu, a, blocks, trips[x], trips[y]);
            if x < y {
                assert(src_lt(trips[x].2, trips[y].2));
            } else {
                assert(src_lt(trips[y].2, trips[x].2));
            }
        }
    }
}

/// Every triplet label is below `bound` in assembly order.
pub open spec fn labels_below(trips: Seq<(usize, usize, KktSource)>, bound: KktSource) -> bool {
    forall|t: int| 0 <= t < trips.len() ==> src_lt(#[trigger] trips[t].2, bound)
}

/// The entries of the upper triangle of `P`, in storage order; `has[j]`
/// records whether column `j` holds its diagonal.
fn push_p_entries<T>(pu: &CscMatrix<T>, a: &CscMatrix<T>, trips: &mut Vec<(usize, usize, KktSource)>) -> (has: Vec<bool>)
    requires
        kkt_inputs_ok(pu, a),
        old(trips)@.len() == 0,
    ensures
        final(trips)@.len() == pu.spec_nnz(),
        forall|j: int, q: int| #[trigger] pu.entry_in_col(j, q) ==>
            final(trips)@[q] == (pu.row_idx@[q], j as usize, KktSource::P(q as usize)),
        has@.len() == pu.n,
        forall|j: int| 0 <= j < pu.n ==> #[trigger] has@[j] == has_diag(pu, j),
{
    let n = pu.n;
    let mut has: Vec<bool> = Vec::new();
    for j in 0..n
        invariant
            has@.len() == j,
            forall|i: int| 0 <= i < j ==> !(#[trigger] has@[i]),
    {
        has.push(false);
    }
    let mut j: usize = 0;
    while j < n
        invariant
            kkt_inputs_ok(pu, a),
            n == pu.n,
            j <= n,
            has@.len() == n,
            trips@.len() == pu.col_ptr@[j as int],
            forall|jj: int, q: int| #[trigger] pu.entry_in_col(jj, q) && q < trips@.len() ==>
                trips@[q] == (pu.row_idx@[q], jj as usize, KktSource::P(q as usize)),
            forall|jj: int| 0 <= jj < j ==> #[trigger] has@[jj] == has_diag(pu, jj),
            forall|jj: int| j <= jj < n ==> !(#[trigger] has@[jj]),
        decreases n - j,
    {
        let end = pu.col_ptr[j + 1];
        let mut q = pu.col_ptr[j];
        assert(pu.col_ptr@[j as int] <= pu.col_ptr@[j + 1]);
        assert(pu.col_ptr@[j + 1] <= pu.col_ptr@[n as int]);
        while q < end
            invariant
                kkt_inputs_ok(pu, a),
                n == pu.n,
                j < n,
                end == pu.col_ptr@[j + 1],
                end <= pu.row_idx@.len(),
                pu.col_ptr@[j as int] <= q <= end,
                has@.len() == n,
                trips@.len() == q,
                forall|jj: int, qq: int| #[trigger] pu.entry_in_col(jj, qq) && qq < trips@.len() ==>
                    trips@[qq] == (pu.row_idx@[qq], jj as usize, KktSource::P(qq as usize)),
                forall|jj: int| 0 <= jj < j ==> #[trigger] has@[jj] == has_diag(pu, jj),
                forall|jj: int| j < jj < n ==> !(#[trigger] has@[jj]),
                has@[j as int] <==> exists|qq: int| pu.col_ptr@[j as int] <= qq < q && pu.row_idx@[qq] == j,
            decreases end - q,
        {
            let i = pu.row_idx[q];
            trips.push((i, j, KktSource::P(q)));
            if i == j {
                has.set(j, true);
            }
            assert forall|jj: int, qq: int| #[trigger] pu.entry_in_col(jj, qq) && qq < trips@.len() implies
                trips@[qq] == (pu.row_idx@[qq], jj as usize, KktSource::P(qq as usize)) by {
                if qq == q as int {
                    assert(pu.entry_in_col(j as int, qq));
                    lemma_in_col_unique(pu.col_ptr@, n as int, pu.row_idx@.len() as int, jj, j as int, qq);
                }
            }
            q = q + 1;
        }
        assert(has@[j as int] == has_diag(pu, j as int)) by {
            if has_diag(pu, j as int) {
                let qq = choose|qq: int| #[trigger] pu.entry_in_col(j as int, qq) && pu.row_idx@[qq] == j;
            }
            if has@[j as int] {
                let qq = choose|qq: int| pu.col_ptr@[j as int] <= qq < q && pu.row_idx@[qq] == j;
                assert(pu.entry_in_col(j as int, qq));
            }
        }
        j = j + 1;
    }
    has
}

/// Sigma on every primal diagonal position that `P` leaves empty.
fn push_sigma_diagonal<T>(pu: &CscMatrix<T>, a: &CscMatrix<T>, has: &Vec<bool>, trips: &mut Vec<(usize, usize, KktSource)>,
    Ghost(blocks): Ghost<Seq<HsBlock>>)
    requires
        kkt_inputs_ok(pu, a),
        has@.len() == pu.n,
        forall|j: int| 0 <= j < pu.n ==> #[trigger] has@[j] == has_diag(pu, j),
        old(trips)@.len() == pu.spec_nnz(),
        forall|j: int, q: int| #[trigger] pu.entry_in_col(j, q) ==>
            old(trips)@[q] == (pu.row_idx@[q], j as usize, KktSource::P(q as usize)),
    ensures
        trips_ok(pu, a, blocks, final(trips)@),
        final(trips)@.len() >= pu.spec_nnz(),
        labels_below(final(trips)@, KktSource::A(0)),
        forall|t: int| 0 <= t < final(trips)@.len() ==> (#[trigger] final(trips)@[t]).0 < pu.n && final(trips)@[t].1 < pu.n,
        forall|j: int, q: int| #[trigger] pu.entry_in_col(j, q) ==>
            final(trips)@[q] == (pu.row_idx@[q], j as usize, KktSource::P(q as usize)),
        forall|j: int| 0 <= j < pu.n && !has_diag(pu, j) ==>
            exists|t: int| 0 <= t < final(trips)@.len() && #[trigger] final(trips)@[t] == (j as usize, j as usize, KktSource::SigmaDiag(j as usize)),
{
    let n = pu.n;
    let nnz = pu.row_idx.len();
    proof {
        assert forall|t: int| 0 <= t < trips@.len() implies source_ok(pu, a, blocks, #[trigger] trips@[t])
            && trips@[t].0 < n && trips@[t].1 < n && trips@[t].2 == KktSource::P(t as usize) by {
            crate::csc::lemma_col_exists(pu.col_ptr@, n as int, nnz as int, t);
            let jj = choose|jj: int| #[trigger] in_col(pu.col_ptr@, n as int, jj, t);
            assert(pu.entry_in_col(jj, t));
        }
    }
    let mut j: usize = 0;
    while j < n
        invariant
            kkt_inputs_ok(pu, a),
            n == pu.n,
            nnz == pu.spec_nnz(),
            j <= n,
            has@.len() == n,
            forall|j: int| 0 <= j < pu.n ==> #[trigger] has@[j] == has_diag(pu, j),
            trips@.len() >= nnz,
            forall|jj: int, q: int| #[trigger] pu.entry_in_col(jj, q) ==>
                trips@[q] == (pu.row_idx@[q], jj as usize, KktSource::P(q as usize)),
            forall|t: int| 0 <= t < nnz ==> (#[trigger] trips@[t]).2 == KktSource::P(t as usize),
            forall|t: int| nnz <= t < trips@.len() ==> (#[trigger] trips@[t]).2 is SigmaDiag
                && trips@[t].2->SigmaDiag_0 < j,
            forall|t: int| 0 <= t < trips@.len() ==> source_ok(pu, a, blocks, #[trigger] trips@[t])
                && trips@[t].0 < n && trips@[t].1 < n,
            forall|x: int, y: int| #![trigger trips@[x], trips@[y]] 0 <= x < y < trips@.len() ==> src_lt(trips@[x].2, trips@[y].2),
            forall|jj: int| 0 <= jj < j && !has_diag(pu, jj) ==>
                exists|t: int| 0 <= t < trips@.len() && #[trigger] trips@[t] == (jj as usize, jj as usize, KktSource::SigmaDiag(jj as usize)),
        decreases n - j,
    {
        if !(has[j]) {
            let ghost old_t = trips@;
            trips.push((j, j, KktSource::SigmaDiag(j)));
            proof {
                assert forall|x: int, y: int| #![trigger trips@[x], trips@[y]] 0 <= x < y < trips@.len() implies
                    src_lt(trips@[x].2, trips@[y].2) by {
                    if y == trips@.len() - 1 {
                        assert(old_t[x] == trips@[x]);
                        if x >= nnz {
                            assert(old_t[x].2 is SigmaDiag);
                        } else {
                            assert(old_t[x].2 == KktSource::P(x as usize));
                        }
                    } else {
                        assert(old_t[x] == trips@[x] && old_t[y] == trips@[y]);
                    }
                }
                assert forall|jj: int| 0 <= jj < j + 1 && !has_diag(pu, jj) implies
                    exists|t: int| 0 <= t < trips@.len() && #[trigger] trips@[t] == (jj as usize, jj as usize, KktSource::SigmaDiag(jj as usize)) by {
                    if jj == j as int {
                        assert(trips@[trips@.len() - 1] == (jj as usize, jj as usize, KktSource::SigmaDiag(jj as usize)));
                    } else {
                        let t = choose|t: int| 0 <= t < old_t.len() && #[trigger] old_t[t] == (jj as usize, jj as usize, KktSource::SigmaDiag(jj as usize));
                        assert(trips@[t] == old_t[t]);
                    }
                }
                assert forall|t: int| nnz <= t < trips@.len() implies (#[trigger] trips@[t]).2 is SigmaDiag
                    && trips@[t].2->SigmaDiag_0 < j + 1 by {
                    if t < old_t.len() {
                        assert(trips@[t] == old_t[t]);
                    }
                }
            }
        }
        j = j + 1;
    }
    proof {
        assert forall|t: int| 0 <= t < trips@.len() implies src_lt(#[trigger] trips@[t].2, KktSource::A(0)) by {
            if t < nnz {
                assert(trips@[t].2 == KktSource::P(t as usize));
            } else {
                assert(trips@[t].2 is SigmaDiag);
            }
        }
    }
}

/// The entries of `A`, stored transposed: entry `(r, c)` of `A` goes to row
/// `c`, column `n + r` of `K`.
fn push_a_transpose<T>(pu: &CscMatrix<T>, a: &CscMatrix<T>, trips: &mut Vec<(usize, usize, KktSource)>,
    Ghost(blocks): Ghost<Seq<HsBlock>>)
    requires
        kkt_inputs_ok(pu, a),
        trips_ok(pu, a, blocks, old(trips)@),
        labels_below(old(trips)@, KktSource::A(0)),
        forall|t: int| 0 <= t < old(trips)@.len() ==> (#[trigger] old(trips)@[t]).0 < pu.n + a.m && old(trips)@[t].1 < pu.n + a.m,
    ensures
        trips_ok(pu, a, blocks, final(trips)@),
        labels_below(final(trips)@, KktSource::DualDiag(0)),
        forall|t: int| 0 <= t < final(trips)@.len() ==> (#[trigger] final(trips)@[t]).0 < pu.n + a.m && final(trips)@[t].1 < pu.n + a.m,
        final(trips)@.len() >= old(trips)@.len(),
        forall|t: int| 0 <= t < old(trips)@.len() ==> #[trigger] final(trips)@[t] == old(trips)@[t],
        forall|c: int, p: int| #[trigger] a.entry_in_col(c, p) ==>
            exists|t: int| 0 <= t < final(trips)@.len() && #[trigger] final(trips)@[t] == (c as usize, (pu.n + a.row_idx@[p]) as usize, KktSource::A(p as usize)),
{
    let n = pu.n;
    let m = a.m;
    let ghost t0 = trips@;
    let mut c: usize = 0;
    while c < n
        invariant
            kkt_inputs_ok(pu, a),
            n == pu.n,
            m == a.m,
            c <= n,
            trips@.len() >= t0.len(),
            forall|t: int| 0 <= t < t0.len() ==> #[trigger] trips@[t] == t0[t],
            trips_ok(pu, a, blocks, trips@),
            labels_below(t0, KktSource::A(0)),
            forall|t: int| t0.len() <= t < trips@.len() ==> (#[trigger] trips@[t]).2 is A
                && trips@[t].2->A_0 < a.col_ptr@[c as int],
            forall|t: int| 0 <= t < trips@.len() ==> (#[trigger] trips@[t]).0 < n + m && trips@[t].1 < n + m,
            forall|cc: int, p: int| #[trigger] a.entry_in_col(cc, p) && cc < c ==>
                exists|t: int| 0 <= t < trips@.len() && #[trigger] trips@[t] == (cc as usize, (n + a.row_idx@[p]) as usize, KktSource::A(p as usize)),
        decreases n - c,
    {
        let end = a.col_ptr[c + 1];
        let mut p = a.col_ptr[c];
        assert(a.col_ptr@[c as int] <= a.col_ptr@[c + 1]);
        assert(a.col_ptr@[c + 1] <= a.col_ptr@[n as int]);
        while p < end
            invariant
                kkt_inputs_ok(pu, a),
                n == pu.n,
                m == a.m,
                c < n,
                end == a.col_ptr@[c + 1],
                end <= a.row_idx@.len(),
                a.col_ptr@[c as int] <= p <= end,
                trips@.len() >= t0.len(),
                forall|t: int| 0 <= t < t0.len() ==> #[trigger] trips@[t] == t0[t],
                trips_ok(pu, a, blocks, trips@),
                labels_below(t0, KktSource::A(0)),
                forall|t: int| t0.len() <= t < trips@.len() ==> (#[trigger] trips@[t]).2 is A
                    && trips@[t].2->A_0 < p,
                forall|t: int| 0 <= t < trips@.len() ==> (#[trigger] trips@[t]).0 < n + m && trips@[t].1 < n + m,
                forall|cc: int, pp: int| #[trigger] a.entry_in_col(cc, pp) && (cc < c || (cc == c && pp < p)) ==>
                    exists|t: int| 0 <= t < trips@.len() && #[trigger] trips@[t] == (cc as usize, (n + a.row_idx@[pp]) as usize, KktSource::A(pp as usize)),
            decreases end - p,
        {
            let r = a.row_idx[p];
            assert(a.entry_in_col(c as int, p as int));
            let ghost old_t = trips@;
            trips.push((c, n + r, KktSource::A(p)));
            proof {
                assert forall|x: int, y: int| #![trigger trips@[x], trips@[y]] 0 <= x < y < trips@.len() implies
                    src_lt(trips@[x].2, trips@[y].2) by {
                    if y == trips@.len() - 1 {
                        assert(old_t[x] == trips@[x]);
                        if x < t0.len() {
                            assert(src_lt(t0[x].2, KktSource::A(0)));
                        }
                    } else {
                        assert(old_t[x] == trips@[x] && old_t[y] == trips@[y]);
                    }
                }
                assert forall|t: int| 0 <= t < trips@.len() implies source_ok(pu, a, blocks, #[trigger] trips@[t]) by {
                    if t < old_t.len() {
                        assert(old_t[t] == trips@[t]);
                    }
                }
                assert forall|cc: int, pp: int| #[trigger] a.entry_in_col(cc, pp) && (cc < c || (cc == c && pp < p + 1)) implies
                    exists|t: int| 0 <= t < trips@.len() && #[trigger] trips@[t] == (cc as usize, (n + a.row_idx@[pp]) as usize, KktSource::A(pp as usize)) by {
                    if cc == c && pp == p {
                        assert(trips@[trips@.len() - 1] == (cc as usize, (n + a.row_idx@[pp]) as usize, KktSource::A(pp as usize)));
                    } else {
                        if cc == c {
                            assert(pp < p);
                        } else {
                            lemma_in_col_unique(a.col_ptr@, n as int, a.row_idx@.len() as int, cc, cc, pp);
                            if pp == p as int {
                                lemma_in_col_unique(a.col_ptr@, n as int, a.row_idx@.len() as int, cc, c as int, pp);
                            }
                        }
                        let t = choose|t: int| 0 <= t < old_t.len() && #[trigger] old_t[t] == (cc as usize, (n + a.row_idx@[pp]) as usize, KktSource::A(pp as usize));
                        assert(trips@[t] == old_t[t]);
                    }
                }
            }
            p = p + 1;
        }
        c = c + 1;
    }
    proof {
        assert forall|t: int| 0 <= t < trips@.len() implies src_lt(#[trigger] trips@[t].2, KktSource::DualDiag(0)) by {
            if t < t0.len() {
                assert(src_lt(t0[t].2, KktSource::A(0)));
            } else {
                assert(trips@[t].2 is A);
            }
        }
    }
}

/// The triplet of the dual diagonal at dual row `r`.
pub open spec fn dual_entry(n: int, r: int) -> (usize, usize, KktSource) {
    ((n + r) as usize, (n + r) as usize, KktSource::DualDiag(r as usize))
}

/// The dual diagonal `(n + r, n + r)` for every dual row `r`.
fn push_dual_diagonal<T>(pu: &CscMatrix<T>, a: &CscMatrix<T>, trips: &mut Vec<(usize, usize, KktSource)>)
    requires
        kkt_inputs_ok(pu, a),
        trips_ok(pu, a, Seq::empty(), old(trips)@),
        labels_below(old(trips)@, KktSource::DualDiag(0)),
        forall|t: int| 0 <= t < old(trips)@.len() ==> (#[trigger] old(trips)@[t]).0 < pu.n + a.m && old(trips)@[t].1 < pu.n + a.m,
    ensures
        trips_ok(pu, a, Seq::empty(), final(trips)@),
        forall|t: int| 0 <= t < final(trips)@.len() ==> (#[trigger] final(trips)@[t]).0 < pu.n + a.m && final(trips)@[t].1 < pu.n + a.m,
        final(trips)@.len() >= old(trips)@.len(),
        forall|t: int| 0 <= t < old(trips)@.len() ==> #[trigger] final(trips)@[t] == old(trips)@[t],
        forall|r: int| 0 <= r < a.m ==> #[trigger] final(trips)@.contains(dual_entry(pu.n as int, r)),
{
    let n = pu.n;
    let m = a.m;
    let ghost t0 = trips@;
    let mut r: usize = 0;
    while r < m
        invariant
            kkt_inputs_ok(pu, a),
            n == pu.n,
            m == a.m,
            r <= m,
            trips@.len() >= t0.len(),
            forall|t: int| 0 <= t < t0.len() ==> #[trigger] trips@[t] == t0[t],
            trips_ok(pu, a, Seq::empty(), trips@),
            labels_below(t0, KktSource::DualDiag(0)),
            forall|t: int| t0.len() <= t < trips@.len() ==> (#[trigger] trips@[t]).2 is DualDiag
                && trips@[t].2->DualDiag_0 < r,
            forall|t: int| 0 <= t < trips@.len() ==> (#[trigger] trips@[t]).0 < n + m && trips@[t].1 < n + m,
            forall|rr: int| 0 <= rr < r ==> #[trigger] trips@.contains(dual_entry(n as int, rr)),
        decreases m - r,
    {
        let ghost old_t = trips@;
        trips.push((n + r, n + r, KktSource::DualDiag(r)));
        proof {
            assert forall|x: int, y: int| #![trigger trips@[x], trips@[y]] 0 <= x < y < trips@.len() implies
                src_lt(trips@[x].2, trips@[y].2) by {
                if y == trips@.len() - 1 {
                    assert(old_t[x] == trips@[x]);
                    if x < t0.len() {
                        assert(src_lt(t0[x].2, KktSource::DualDiag(0)));
                    }
                } else {
                    assert(old_t[x] == trips@[x] && old_t[y] == trips@[y]);
                }
            }
            assert forall|t: int| 0 <= t < trips@.len() implies source_ok(pu, a, Seq::empty(), #[trigger] trips@[t]) by {
                if t < old_t.len() {
                    assert(old_t[t] == trips@[t]);
                }
            }
            assert forall|rr: int| 0 <= rr < r + 1 implies #[trigger] trips@.contains(dual_entry(n as int, rr)) by {
                if rr == r as int {
                    assert(trips@[trips@.len() - 1] == dual_entry(n as int, rr));
                } else {
                    assert(old_t.contains(dual_entry(n as int, rr)));
                    let t = choose|t: int| 0 <= t < old_t.len() && old_t[t] == dual_entry(n as int, rr);
                    assert(trips@[t] == old_t[t]);
                }
            }
        }
        r = r + 1;
    }
}

/// Every triplet lies inside the `n + m` square.
pub open spec fn trips_inside(trips: Seq<(usize, usize, KktSource)>, ntot: int) -> bool {
    forall|t: int| 0 <= t < trips.len() ==> (#[trigger] trips[t]).0 < ntot && trips[t].1 < ntot
}

/// The diagonal block `b`, at dual rows `off .. off + len`.
fn push_diag_block<T>(pu: &CscMatrix<T>, a: &CscMatrix<T>, blocks: &[HsBlock], b: usize, off: usize, len: usize,
    trips: &mut Vec<(usize, usize, KktSource)>)
    requires
        kkt_inputs_ok(pu, a),
        b < usize::MAX,
        blocks_ok(blocks@, a.m as int),
        b < blocks@.len(),
        blocks@[b as int] is Diagonal,
        blocks@[b as int].spec_off() == off,
        blocks@[b as int].spec_dim() == len,
        trips_ok(pu, a, blocks@, old(trips)@),
        labels_below(old(trips)@, KktSource::Hs(b, 0)),
        trips_inside(old(trips)@, pu.n + a.m),
    ensures
        trips_ok(pu, a, blocks@, final(trips)@),
        labels_below(final(trips)@, KktSource::Hs((b + 1) as usize, 0)),
        trips_inside(final(trips)@, pu.n + a.m),
        final(trips)@.len() >= old(trips)@.len(),
        forall|t: int| 0 <= t < old(trips)@.len() ==> #[trigger] final(trips)@[t] == old(trips)@[t],
        forall|t: int| old(trips)@.len() <= t < final(trips)@.len() ==> (#[trigger] final(trips)@[t]).2 is Hs,
        forall|i: int, j: int| blocks@[b as int].block_pos(i, j) ==>
            #[trigger] final(trips)@.contains(hs_entry(pu.n as int, blocks@[b as int], b as int, i, j)),
{
    let n = pu.n;
    let ghost blk = blocks@[b as int];
    let ghost t0 = trips@;
    let mut k: usize = 0;
    while k < len
        invariant
            kkt_inputs_ok(pu, a),
            blocks_ok(blocks@, a.m as int),
            n == pu.n,
            b < blocks@.len(),
            blk == blocks@[b as int],
            blk is Diagonal,
            blk.spec_off() == off,
            blk.spec_dim() == len,
            k <= len,
            trips_ok(pu, a, blocks@, trips@),
            labels_below(trips@, KktSource::Hs(b, k)),
            trips_inside(trips@, pu.n + a.m),
            trips@.len() >= t0.len(),
            forall|t: int| 0 <= t < t0.len() ==> #[trigger] trips@[t] == t0[t],
            forall|t: int| t0.len() <= t < trips@.len() ==> (#[trigger] trips@[t]).2 is Hs,
            forall|i: int, j: int| blk.block_pos(i, j) && i < k ==>
                #[trigger] trips@.contains(hs_entry(n as int, blk, b as int, i, j)),
        decreases len - k,
    {
        assert(0 <= blk.spec_off() && blk.spec_off() + blk.spec_dim() <= a.m);
        let ghost old_t = trips@;
        let e = (n + off + k, n + off + k, KktSource::Hs(b, k));
        assert(e == hs_entry(n as int, blk, b as int, k as int, k as int));
        trips.push(e);
        proof {
            assert(source_ok(pu, a, blocks@, e));
            assert forall|t: int| 0 <= t < trips@.len() implies source_ok(pu, a, blocks@, #[trigger] trips@[t]) by {
                if t < old_t.len() {
                    assert(old_t[t] == trips@[t]);
                }
            }
            assert forall|x: int, y: int| #![trigger trips@[x], trips@[y]] 0 <= x < y < trips@.len() implies
                src_lt(trips@[x].2, trips@[y].2) by {
                assert(old_t[x] == trips@[x]);
                if y < old_t.len() {
                    assert(old_t[y] == trips@[y]);
                }
            }
            assert forall|t: int| 0 <= t < trips@.len() implies src_lt(#[trigger] trips@[t].2, KktSource::Hs(b, (k + 1) as usize)) by {
                if t < old_t.len() {
                    assert(old_t[t] == trips@[t]);
                }
            }
            assert forall|i: int, j: int| blk.block_pos(i, j) && i < k + 1 implies
                #[trigger] trips@.contains(hs_entry(n as int, blk, b as int, i, j)) by {
                if i == k as int {
                    assert(trips@[trips@.len() - 1] == hs_entry(n as int, blk, b as int, i, j));
                } else {
                    assert(old_t.contains(hs_entry(n as int, blk, b as int, i, j)));
                    let t = choose|t: int| 0 <= t < old_t.len() && old_t[t] == hs_entry(n as int, blk, b as int, i, j);
                    assert(trips@[t] == old_t[t]);
                }
            }
        }
        k = k + 1;
    }
    assert forall|t: int| 0 <= t < trips@.len() implies src_lt(#[trigger] trips@[t].2, KktSource::Hs((b + 1) as usize, 0)) by {
        assert(src_lt(trips@[t].2, KktSource::Hs(b, k)));
    }
}

/// The dense block `b`, at dual rows `off .. off + dim`, column by column.
fn push_dense_block<T>(pu: &CscMatrix<T>, a: &CscMatrix<T>, blocks: &[HsBlock], b: usize, off: usize, dim: usize,
    plen: usize, trips: &mut Vec<(usize, usize, KktSource)>)
    requires
        kkt_inputs_ok(pu, a),
        b < usize::MAX,
        blocks@[b as int].spec_indices().len() == plen,
        blocks_ok(blocks@, a.m as int),
        b < blocks@.len(),
        blocks@[b as int] is DenseUpper,
        blocks@[b as int].spec_off() == off,
        blocks@[b as int].spec_dim() == dim,
        trips_ok(pu, a, blocks@, old(trips)@),
        labels_below(old(trips)@, KktSource::Hs(b, 0)),
        trips_inside(old(trips)@, pu.n + a.m),
    ensures
        trips_ok(pu, a, blocks@, final(trips)@),
        labels_below(final(trips)@, KktSource::Hs((b + 1) as usize, 0)),
        trips_inside(final(trips)@, pu.n + a.m),
        final(trips)@.len() >= old(trips)@.len(),
        forall|t: int| 0 <= t < old(trips)@.len() ==> #[trigger] final(trips)@[t] == old(trips)@[t],
        forall|t: int| old(trips)@.len() <= t < final(trips)@.len() ==> (#[trigger] final(trips)@[t]).2 is Hs,
        forall|i: int, j: int| blocks@[b as int].block_pos(i, j) ==>
            #[trigger] final(trips)@.contains(hs_entry(pu.n as int, blocks@[b as int], b as int, i, j)),
{
    let n = pu.n;
    let ghost blk = blocks@[b as int];
    let ghost t0 = trips@;
    assert(blk.spec_indices().len() == tri_len(dim as int));
    assert(0 <= blk.spec_off() && blk.spec_off() + blk.spec_dim() <= a.m);
    let mut t: usize = 0;
    let mut j: usize = 0;
    while j < dim
        invariant
            kkt_inputs_ok(pu, a),
            blocks_ok(blocks@, a.m as int),
            n == pu.n,
            b < blocks@.len(),
            blk == blocks@[b as int],
            blk is DenseUpper,
            blk.spec_off() == off,
            blk.spec_dim() == dim,
            off + dim <= a.m,
            blk.spec_indices().len() == tri_len(dim as int),
            blk.spec_indices().len() <= usize::MAX,
            j <= dim,
            t == tri_len(j as int),
            trips_ok(pu, a, blocks@, trips@),
            labels_below(trips@, KktSource::Hs(b, t)),
            trips_inside(trips@, pu.n + a.m),
            trips@.len() >= t0.len(),
            forall|tt: int| 0 <= tt < t0.len() ==> #[trigger] trips@[tt] == t0[tt],
            forall|tt: int| t0.len() <= tt < trips@.len() ==> (#[trigger] trips@[tt]).2 is Hs,
            forall|i: int, jj: int| blk.block_pos(i, jj) && jj < j ==>
                #[trigger] trips@.contains(hs_entry(n as int, blk, b as int, i, jj)),
        decreases dim - j,
    {
        proof {
            lemma_tri_len_step(j as int);
            lemma_tri_len_mono(j + 1, dim as int);
        }
        let mut i: usize = 0;
        while i <= j
            invariant
                kkt_inputs_ok(pu, a),
                blocks_ok(blocks@, a.m as int),
                n == pu.n,
                b < blocks@.len(),
                blk == blocks@[b as int],
                blk is DenseUpper,
                blk.spec_off() == off,
                blk.spec_dim() == dim,
                off + dim <= a.m,
                j < dim,
                i <= j + 1,
                t == tri_len(j as int) + i,
                tri_len(j as int) + j + 1 <= usize::MAX,
                trips_ok(pu, a, blocks@, trips@),
                labels_below(trips@, KktSource::Hs(b, t)),
                trips_inside(trips@, pu.n + a.m),
                trips@.len() >= t0.len(),
                forall|tt: int| 0 <= tt < t0.len() ==> #[trigger] trips@[tt] == t0[tt],
                forall|tt: int| t0.len() <= tt < trips@.len() ==> (#[trigger] trips@[tt]).2 is Hs,
                forall|ii: int, jj: int| blk.block_pos(ii, jj) && (jj < j || (jj == j && ii < i)) ==>
                    #[trigger] trips@.contains(hs_entry(n as int, blk, b as int, ii, jj)),
            decreases j + 1 - i,
        {
            let ghost old_t = trips@;
            let e = (n + off + i, n + off + j, KktSource::Hs(b, t));
            assert(e == hs_entry(n as int, blk, b as int, i as int, j as int));
            trips.push(e);
            proof {
                assert(blk.packed_at(t as int, i as int, j as int));
                assert(source_ok(pu, a, blocks@, e));
                assert forall|tt: int| 0 <= tt < trips@.len() implies source_ok(pu, a, blocks@, #[trigger] trips@[tt]) by {
                    if tt < old_t.len() {
                        assert(old_t[tt] == trips@[tt]);
                    }
                }
                assert forall|x: int, y: int| #![trigger trips@[x], trips@[y]] 0 <= x < y < trips@.len() implies
                    src_lt(trips@[x].2, trips@[y].2) by {
                    assert(old_t[x] == trips@[x]);
                    if y < old_t.len() {
                        assert(old_t[y] == trips@[y]);
                    }
                }
                assert forall|tt: int| 0 <= tt < trips@.len() implies src_lt(#[trigger] trips@[tt].2, KktSource::Hs(b, (t + 1) as usize)) by {
                    if tt < old_t.len() {
                        assert(old_t[tt] == trips@[tt]);
                    }
                }
                assert forall|ii: int, jj: int| blk.block_pos(ii, jj) && (jj < j || (jj == j && ii < i + 1)) implies
                    #[trigger] trips@.contains(hs_entry(n as int, blk, b as int, ii, jj)) by {
                    if ii == i as int && jj == j as int {
                        assert(trips@[trips@.len() - 1] == hs_entry(n as int, blk, b as int, ii, jj));
                    } else {
                        assert(old_t.contains(hs_entry(n as int, blk, b as int, ii, jj)));
                        let tt = choose|tt: int| 0 <= tt < old_t.len() && old_t[tt] == hs_entry(n as int, blk, b as int, ii, jj);
                        assert(trips@[tt] == old_t[tt]);
                    }
                }
            }
            t = t + 1;
            i = i + 1;
        }
        j = j + 1;
    }
    assert forall|tt: int| 0 <= tt < trips@.len() implies src_lt(#[trigger] trips@[tt].2, KktSource::Hs((b + 1) as usize, 0)) by {
        assert(src_lt(trips@[tt].2, KktSource::Hs(b, t)));
    }
}

/// The scaling blocks of all cones, block after block.
fn push_hs_blocks<T>(pu: &CscMatrix<T>, a: &CscMatrix<T>, blocks: &[HsBlock], trips: &mut Vec<(usize, usize, KktSource)>)
    requires
        kkt_inputs_ok(pu, a),
        blocks_ok(blocks@, a.m as int),
        trips_ok(pu, a, blocks@, old(trips)@),
        labels_below(old(trips)@, KktSource::DualDiag(0)),
        trips_inside(old(trips)@, pu.n + a.m),
    ensures
        trips_ok(pu, a, blocks@, final(trips)@),
        trips_inside(final(trips)@, pu.n + a.m),
        final(trips)@.len() >= old(trips)@.len(),
        forall|t: int| 0 <= t < old(trips)@.len() ==> #[trigger] final(trips)@[t] == old(trips)@[t],
        forall|t: int| old(trips)@.len() <= t < final(trips)@.len() ==> (#[trigger] final(trips)@[t]).2 is Hs,
        forall|b: int, i: int, j: int| 0 <= b < blocks@.len() && blocks@[b].block_pos(i, j) ==>
            #[trigger] final(trips)@.contains(hs_entry(pu.n as int, blocks@[b], b, i, j)),
{
    let ghost t0 = trips@;
    assert forall|t: int| 0 <= t < trips@.len() implies src_lt(#[trigger] trips@[t].2, KktSource::Hs(0, 0)) by {
        assert(src_lt(trips@[t].2, KktSource::DualDiag(0)));
    }
    let nb = blocks.len();
    let mut b: usize = 0;
    while b < nb
        invariant
            kkt_inputs_ok(pu, a),
            blocks_ok(blocks@, a.m as int),
            nb == blocks@.len(),
            b <= nb,
            trips_ok(pu, a, blocks@, trips@),
            labels_below(trips@, KktSource::Hs(b, 0)),
            trips_inside(trips@, pu.n + a.m),
            trips@.len() >= t0.len(),
            forall|t: int| 0 <= t < t0.len() ==> #[trigger] trips@[t] == t0[t],
            forall|t: int| t0.len() <= t < trips@.len() ==> (#[trigger] trips@[t]).2 is Hs,
            forall|bb: int, i: int, j: int| 0 <= bb < b && blocks@[bb].block_pos(i, j) ==>
                #[trigger] trips@.contains(hs_entry(pu.n as int, blocks@[bb], bb, i, j)),
        decreases nb - b,
    {
        let ghost old_t = trips@;
        match &blocks[b] {
            HsBlock::Diagonal { off, indices } => {
                push_diag_block(pu, a, blocks, b, *off, indices.len(), trips);
            }
            HsBlock::DenseUpper { off, dim, indices } => {
                push_dense_block(pu, a, blocks, b, *off, *dim, indices.len(), trips);
            }
        }
        proof {
            assert forall|bb: int, i: int, j: int| 0 <= bb < b + 1 && blocks@[bb].block_pos(i, j) implies
                #[trigger] trips@.contains(hs_entry(pu.n as int, blocks@[bb], bb, i, j)) by {
                if bb < b {
                    assert(old_t.contains(hs_entry(pu.n as int, blocks@[bb], bb, i, j)));
                    let t = choose|t: int| 0 <= t < old_t.len() && old_t[t] == hs_entry(pu.n as int, blocks@[bb], bb, i, j);
                    assert(trips@[t] == old_t[t]);
                }
            }
        }
        b = b + 1;
    }
}

/// Position of the entry at row `row`, column `col` of a matrix that stores it.
fn find_entry<T>(k: &CscMatrix<T>, row: usize, col: usize) -> (q: usize)
    requires
        k.wf(),
        col < k.n,
        exists|q: int| #[trigger] k.entry_in_col(col as int, q) && k.row_idx@[q] == row,
    ensures
        k.entry_in_col(col as int, q as int),
        k.row_idx@[q as int] == row,
{
    let end = k.col_ptr[col + 1];
    let mut q = k.col_ptr[col];
    assert(k.col_ptr@[col + 1] <= k.col_ptr@[k.n as int]);
    while q < end
        invariant
            k.wf(),
            col < k.n,
            end == k.col_ptr@[col + 1],
            end <= k.row_idx@.len(),
            k.col_ptr@[col as int] <= q <= end,
            forall|qq: int| k.col_ptr@[col as int] <= qq < q ==> k.row_idx@[qq] != row,
            exists|qq: int| #[trigger] k.entry_in_col(col as int, qq) && k.row_idx@[qq] == row,
        decreases end - q,
    {
        if k.row_idx[q] == row {
            return q;
        }
        q = q + 1;
    }
    assert(false);
    q
}


/// Stored position `q` of `k` is row `i`, column `j`.
pub open spec fn stored_at<T>(k: &CscMatrix<T>, q: int, i: int, j: int) -> bool {
    k.entry_in_col(j, q) && k.row_idx@[q] == i
}

/// The position of the stored entry `(row, col)` of a canonical matrix, whose
/// value there is `src`.
fn locate(k: &CscMatrix<KktSource>, row: usize, col: usize, Ghost(src): Ghost<KktSource>) -> (q: usize)
    requires
        k.canonical(),
        col < k.n,
        k.has_entry(row as int, col as int, src),
    ensures
        stored_at(k, q as int, row as int, col as int),
        k.x@[q as int] == src,
{
    let q = find_entry(k, row, col);
    proof {
        let p = choose|p: int| #[trigger] k.entry_in_col(col as int, p) && k.row_idx@[p] == row && k.x@[p] == src;
        k.lemma_position_unique(col as int, p, q as int);
    }
    q
}

/// For every stored entry of `pu`, its position in `k`.
fn map_p_entries<T>(pu: &CscMatrix<T>, a: &CscMatrix<T>, k: &CscMatrix<KktSource>) -> (p_map: Vec<usize>)
    requires
        kkt_inputs_ok(pu, a),
        k.canonical(),
        k.n == pu.n + a.m,
        forall|j: int, q: int| #[trigger] pu.entry_in_col(j, q) ==>
            k.has_entry(pu.row_idx@[q] as int, j, KktSource::P(q as usize)),
    ensures
        p_map@.len() == pu.spec_nnz(),
        forall|j: int, q: int| #[trigger] pu.entry_in_col(j, q) ==>
            stored_at(k, p_map@[q] as int, pu.row_idx@[q] as int, j) && k.x@[p_map@[q] as int] == KktSource::P(q as usize),
{
    let n = pu.n;
    let mut p_map: Vec<usize> = Vec::new();
    let mut j: usize = 0;
    while j < n
        invariant
            kkt_inputs_ok(pu, a),
            k.canonical(),
            k.n == pu.n + a.m,
            n == pu.n,
            j <= n,
            forall|j: int, q: int| #[trigger] pu.entry_in_col(j, q) ==>
                k.has_entry(pu.row_idx@[q] as int, j, KktSource::P(q as usize)),
            p_map@.len() == pu.col_ptr@[j as int],
            forall|jj: int, q: int| #[trigger] pu.entry_in_col(jj, q) && q < p_map@.len() ==>
                stored_at(k, p_map@[q] as int, pu.row_idx@[q] as int, jj) && k.x@[p_map@[q] as int] == KktSource::P(q as usize),
        decreases n - j,
    {
        let end = pu.col_ptr[j + 1];
        let mut q = pu.col_ptr[j];
        assert(pu.col_ptr@[j as int] <= pu.col_ptr@[j + 1]);
        assert(pu.col_ptr@[j + 1] <= pu.col_ptr@[n as int]);
        while q < end
            invariant
                kkt_inputs_ok(pu, a),
                k.canonical(),
                k.n == pu.n + a.m,
                n == pu.n,
                j < n,
                end == pu.col_ptr@[j + 1],
                end <= pu.row_idx@.len(),
                pu.col_ptr@[j as int] <= q <= end,
                forall|j: int, q: int| #[trigger] pu.entry_in_col(j, q) ==>
                    k.has_entry(pu.row_idx@[q] as int, j, KktSource::P(q as usize)),
                p_map@.len() == q,
                forall|jj: int, qq: int| #[trigger] pu.entry_in_col(jj, qq) && qq < p_map@.len() ==>
                    stored_at(k, p_map@[qq] as int, pu.row_idx@[qq] as int, jj) && k.x@[p_map@[qq] as int] == KktSource::P(qq as usize),
            decreases end - q,
        {
            assert(pu.entry_in_col(j as int, q as int));
            let pos = locate(k, pu.row_idx[q], j, Ghost(KktSource::P(q)));
            p_map.push(pos);
            assert forall|jj: int, qq: int| #[trigger] pu.entry_in_col(jj, qq) && qq < p_map@.len() implies
                stored_at(k, p_map@[qq] as int, pu.row_idx@[qq] as int, jj) && k.x@[p_map@[qq] as int] == KktSource::P(qq as usize) by {
                if qq == q as int {
                    lemma_in_col_unique(pu.col_ptr@, n as int, pu.row_idx@.len() as int, jj, j as int, qq);
                }
            }
            q = q + 1;
        }
        j = j + 1;
    }
    p_map
}

/// For every stored entry `(r, c)` of `a`, the position of `(c, n + r)` in `k`.
fn map_a_entries<T>(pu: &CscMatrix<T>, a: &CscMatrix<T>, k: &CscMatrix<KktSource>) -> (a_map: Vec<usize>)
    requires
        kkt_inputs_ok(pu, a),
        k.canonical(),
        k.n == pu.n + a.m,
        forall|c: int, p: int| #[trigger] a.entry_in_col(c, p) ==>
            k.has_entry(c, pu.n + a.row_idx@[p], KktSource::A(p as usize)),
    ensures
        a_map@.len() == a.spec_nnz(),
        forall|c: int, p: int| #[trigger] a.entry_in_col(c, p) ==>
            stored_at(k, a_map@[p] as int, c, pu.n + a.row_idx@[p]) && k.x@[a_map@[p] as int] == KktSource::A(p as usize),
{
    let n = pu.n;
    let mut a_map: Vec<usize> = Vec::new();
    let mut c: usize = 0;
    while c < n
        invariant
            kkt_inputs_ok(pu, a),
            k.canonical(),
            k.n == pu.n + a.m,
            n == pu.n,
            c <= n,
            forall|c: int, p: int| #[trigger] a.entry_in_col(c, p) ==>
                k.has_entry(c, pu.n + a.row_idx@[p], KktSource::A(p as usize)),
            a_map@.len() == a.col_ptr@[c as int],
            forall|cc: int, p: int| #[trigger] a.entry_in_col(cc, p) && p < a_map@.len() ==>
                stored_at(k, a_map@[p] as int, cc, pu.n + a.row_idx@[p]) && k.x@[a_map@[p] as int] == KktSource::A(p as usize),
        decreases n - c,
    {
        let end = a.col_ptr[c + 1];
        let mut p = a.col_ptr[c];
        assert(a.col_ptr@[c as int] <= a.col_ptr@[c + 1]);
        assert(a.col_ptr@[c + 1] <= a.col_ptr@[n as int]);
        while p < end
            invariant
                kkt_inputs_ok(pu, a),
                k.canonical(),
                k.n == pu.n + a.m,
                n == pu.n,
                c < n,
                end == a.col_ptr@[c + 1],
                end <= a.row_idx@.len(),
                a.col_ptr@[c as int] <= p <= end,
                forall|c: int, p: int| #[trigger] a.entry_in_col(c, p) ==>
                    k.has_entry(c, pu.n + a.row_idx@[p], KktSource::A(p as usize)),
                a_map@.len() == p,
                forall|cc: int, pp: int| #[trigger] a.entry_in_col(cc, pp) && pp < a_map@.len() ==>
                    stored_at(k, a_map@[pp] as int, cc, pu.n + a.row_idx@[pp]) && k.x@[a_map@[pp] as int] == KktSource::A(pp as usize),
            decreases end - p,
        {
            assert(a.entry_in_col(c as int, p as int));
            let r = a.row_idx[p];
            assert(r < a.m);
            let pos = locate(k, c, n + r, Ghost(KktSource::A(p)));
            a_map.push(pos);
            assert forall|cc: int, pp: int| #[trigger] a.entry_in_col(cc, pp) && pp < a_map@.len() implies
                stored_at(k, a_map@[pp] as int, cc, pu.n + a.row_idx@[pp]) && k.x@[a_map@[pp] as int] == KktSource::A(pp as usize) by {
                if pp == p as int {
                    lemma_in_col_unique(a.col_ptr@, n as int, a.row_idx@.len() as int, cc, c as int, pp);
                }
            }
            p = p + 1;
        }
        c = c + 1;
    }
    a_map
}

/// For each diagonal position `(j, j)` with `lo <= j < hi`, its position in `k`.
fn map_diagonal(k: &CscMatrix<KktSource>, lo: usize, hi: usize) -> (d: Vec<usize>)
    requires
        k.canonical(),
        lo <= hi <= k.n,
        forall|j: int| lo <= j < hi ==> #[trigger] stores(k, j, j),
    ensures
        d@.len() == hi - lo,
        forall|i: int| 0 <= i < hi - lo ==> #[trigger] stored_at(k, d@[i] as int, lo + i, lo + i),
{
    let mut d: Vec<usize> = Vec::new();
    let mut j: usize = lo;
    while j < hi
        invariant
            k.canonical(),
            lo <= j <= hi <= k.n,
            forall|j: int| lo <= j < hi ==> #[trigger] stores(k, j, j),
            d@.len() == j - lo,
            forall|i: int| 0 <= i < j - lo ==> #[trigger] stored_at(k, d@[i] as int, lo + i, lo + i),
        decreases hi - j,
    {
        assert(stores(k, j as int, j as int));
        let q = find_entry(k, j, j);
        d.push(q);
        j = j + 1;
    }
    d
}


/// The pattern of the splitting KKT matrix, with the position in `k` of
/// every entry of `P` (`p_map`), of `A` (`a_map`), of every primal diagonal
/// (`diag_map`) and of every dual diagonal (`rho_map`).
#[derive(Clone, Debug)]
pub struct KktPattern {
    pub k: CscMatrix<KktSource>,
    pub p_map: Vec<usize>,
    pub a_map: Vec<usize>,
    pub diag_map: Vec<usize>,
    pub rho_map: Vec<usize>,
}

/// `k` is the pattern of the KKT matrix of `pu`, `a` with dual scaling
/// `blocks`: square of side `n + m`, canonical, and each stored entry is
/// labelled with a source whose position it is.
pub open spec fn kkt_matrix_ok<T>(pu: &CscMatrix<T>, a: &CscMatrix<T>, blocks: Seq<HsBlock>, k: &CscMatrix<KktSource>) -> bool {
    &&& k.canonical()
    &&& k.m == pu.n + a.m
    &&& k.n == pu.n + a.m
    &&& forall|j: int, q: int| #[trigger] k.entry_in_col(j, q) ==>
        source_ok(pu, a, blocks, (k.row_idx@[q], j as usize, k.x@[q]))
}

/// No stored entry of `k` is labelled with the dual diagonal.
pub open spec fn no_dual_entries(k: &CscMatrix<KktSource>) -> bool {
    forall|j: int, q: int| #[trigger] k.entry_in_col(j, q) ==> !(k.x@[q] is DualDiag)
}

/// `p_map` and `a_map` locate the entries of `pu` and `a` in `k`, and
/// `diag_map` the primal diagonal.
pub open spec fn primal_maps_ok<T>(pu: &CscMatrix<T>, a: &CscMatrix<T>, k: &CscMatrix<KktSource>,
    p_map: Seq<usize>, a_map: Seq<usize>, diag_map: Seq<usize>) -> bool {
    &&& p_map.len() == pu.spec_nnz()
    &&& forall|j: int, q: int| #[trigger] pu.entry_in_col(j, q) ==>
        stored_at(k, p_map[q] as int, pu.row_idx@[q] as int, j) && k.x@[p_map[q] as int] == KktSource::P(q as usize)
    &&& a_map.len() == a.spec_nnz()
    &&& forall|c: int, p: int| #[trigger] a.entry_in_col(c, p) ==>
        stored_at(k, a_map[p] as int, c, pu.n + a.row_idx@[p]) && k.x@[a_map[p] as int] == KktSource::A(p as usize)
    &&& diag_map.len() == pu.n
    &&& forall|j: int| 0 <= j < pu.n ==> #[trigger] stored_at(k, diag_map[j] as int, j, j)
}

/// `rho_map` locates the dual diagonal in `k`.
pub open spec fn dual_map_ok<T>(pu: &CscMatrix<T>, a: &CscMatrix<T>, k: &CscMatrix<KktSource>, rho_map: Seq<usize>) -> bool {
    &&& rho_map.len() == a.m
    &&& forall|i: int| 0 <= i < a.m ==>
        #[trigger] stored_at(k, rho_map[i] as int, pu.n + i, pu.n + i)
        && k.x@[rho_map[i] as int] == KktSource::DualDiag(i as usize)
}

/// The primal part of the triplets: `P`, sigma and `A'`, at their sources'
/// positions, with every entry of `P` at its own index and every source present.
proof fn lemma_primal_trips_present<T>(pu: &CscMatrix<T>, a: &CscMatrix<T>, blocks: Seq<HsBlock>,
    k: &CscMatrix<KktSource>, trips: Seq<(usize, usize, KktSource)>)
    requires
        kkt_inputs_ok(pu, a),
        k.canonical(),
        forall|t: int| 0 <= t < trips.len() ==>
            #[trigger] k.has_entry(trips[t].0 as int, trips[t].1 as int, trips[t].2),
        trips.len() >= pu.spec_nnz(),
        forall|j: int, q: int| #[trigger] pu.entry_in_col(j, q) ==>
            trips[q] == (pu.row_idx@[q], j as usize, KktSource::P(q as usize)),
        forall|j: int| 0 <= j < pu.n && !has_diag(pu, j) ==>
            exists|t: int| 0 <= t < trips.len() && #[trigger] trips[t] == (j as usize, j as usize, KktSource::SigmaDiag(j as usize)),
        forall|c: int, p: int| #[trigger] a.entry_in_col(c, p) ==>
            exists|t: int| 0 <= t < trips.len() && #[trigger] trips[t] == (c as usize, (pu.n + a.row_idx@[p]) as usize, KktSource::A(p as usize)),
    ensures
        forall|j: int, q: int| #[trigger] pu.entry_in_col(j, q) ==>
            k.has_entry(pu.row_idx@[q] as int, j, KktSource::P(q as usize)),
        forall|c: int, p: int| #[trigger] a.entry_in_col(c, p) ==>
            k.has_entry(c, pu.n + a.row_idx@[p], KktSource::A(p as usize)),
        forall|j: int| 0 <= j < pu.n ==> #[trigger] stores(k, j, j),
{
    assert forall|j: int, q: int| #[trigger] pu.entry_in_col(j, q) implies
        k.has_entry(pu.row_idx@[q] as int, j, KktSource::P(q as usize)) by {
        assert(trips[q] == (pu.row_idx@[q], j as usize, KktSource::P(q as usize)));
        assert(k.has_entry(trips[q].0 as int, trips[q].1 as int, trips[q].2));
    }
    assert forall|c: int, p: int| #[trigger] a.entry_in_col(c, p) implies
        k.has_entry(c, pu.n + a.row_idx@[p], KktSource::A(p as usize)) by {
        let t = choose|t: int| 0 <= t < trips.len() && #[trigger] trips[t] == (c as usize, (pu.n + a.row_idx@[p]) as usize, KktSource::A(p as usize));
        assert(k.has_entry(trips[t].0 as int, trips[t].1 as int, trips[t].2));
    }
    assert forall|j: int| 0 <= j < pu.n implies #[trigger] stores(k, j, j) by {
        if has_diag(pu, j) {
            let q = choose|q: int| #[trigger] pu.entry_in_col(j, q) && pu.row_idx@[q] == j;
            assert(k.has_entry(trips[q].0 as int, trips[q].1 as int, trips[q].2));
        } else {
            let t = choose|t: int| 0 <= t < trips.len() && #[trigger] trips[t] == (j as usize, j as usize, KktSource::SigmaDiag(j as usize));
            assert(k.has_entry(trips[t].0 as int, trips[t].1 as int, trips[t].2));
        }
    }
}

/// Every stored entry of the matrix built from triplets in assembly order
/// carries a source at its position.
proof fn lemma_entries_sourced<T>(pu: &CscMatrix<T>, a: &CscMatrix<T>, blocks: Seq<HsBlock>,
    k: &CscMatrix<KktSource>, trips: Seq<(usize, usize, KktSource)>)
    requires
        trips_ok(pu, a, blocks, trips),
        forall|j: int, p: int| #[trigger] k.entry_in_col(j, p) ==>
            exists|t: int| 0 <= t < trips.len() && #[trigger] trips[t] == (k.row_idx@[p], j as usize, k.x@[p]),
    ensures
        forall|j: int, q: int| #[trigger] k.entry_in_col(j, q) ==>
            source_ok(pu, a, blocks, (k.row_idx@[q], j as usize, k.x@[q])),
{
    assert forall|j: int, q: int| #[trigger] k.entry_in_col(j, q) implies
        source_ok(pu, a, blocks, (k.row_idx@[q], j as usize, k.x@[q])) by {
        let t = choose|t: int| 0 <= t < trips.len() && #[trigger] trips[t] == (k.row_idx@[q], j as usize, k.x@[q]);
        assert(source_ok(pu, a, blocks, trips[t]));
    }
}

/// For each dual row `i < m`, the position of `(n + i, n + i)` in `k`.
fn map_dual_diagonal(k: &CscMatrix<KktSource>, n: usize, m: usize, Ghost(trips): Ghost<Seq<(usize, usize, KktSource)>>) -> (d: Vec<usize>)
    requires
        k.canonical(),
        k.n == n + m,
        n + m < usize::MAX,
        forall|t: int| 0 <= t < trips.len() ==>
            #[trigger] k.has_entry(trips[t].0 as int, trips[t].1 as int, trips[t].2),
        forall|i: int| 0 <= i < m ==> #[trigger] trips.contains(dual_entry(n as int, i)),
    ensures
        d@.len() == m,
        forall|i: int| 0 <= i < m ==>
            #[trigger] stored_at(k, d@[i] as int, n + i, n + i) && k.x@[d@[i] as int] == KktSource::DualDiag(i as usize),
{
    let mut d: Vec<usize> = Vec::new();
    let mut i: usize = 0;
    while i < m
        invariant
            k.canonical(),
            k.n == n + m,
            n + m < usize::MAX,
            i <= m,
            forall|t: int| 0 <= t < trips.len() ==>
                #[trigger] k.has_entry(trips[t].0 as int, trips[t].1 as int, trips[t].2),
            forall|i: int| 0 <= i < m ==> #[trigger] trips.contains(dual_entry(n as int, i)),
            d@.len() == i,
            forall|ii: int| 0 <= ii < i ==>
                #[trigger] stored_at(k, d@[ii] as int, n + ii, n + ii) && k.x@[d@[ii] as int] == KktSource::DualDiag(ii as usize),
        decreases m - i,
    {
        proof {
            assert(trips.contains(dual_entry(n as int, i as int)));
            let t = choose|t: int| 0 <= t < trips.len() && trips[t] == dual_entry(n as int, i as int);
            assert(k.has_entry(trips[t].0 as int, trips[t].1 as int, trips[t].2));
        }
        let q = locate(k, n + i, n + i, Ghost(KktSource::DualDiag(i)));
        d.push(q);
        i = i + 1;
    }
    d
}

/// Assembles the pattern of the splitting KKT matrix
///
/// ```text
/// K = [ P + sigma I   A' ]
///     [ A            -D  ]
/// ```
///
/// from the upper triangle `pu` of `P`, stored by its upper triangle, and
/// locates in it every entry of `P` and `A` and both diagonals.
pub fn assemble_upper<T>(pu: &CscMatrix<T>, a: &CscMatrix<T>) -> (r: KktPattern)
    requires
        kkt_inputs_ok(pu, a),
    ensures
        kkt_matrix_ok(pu, a, Seq::empty(), &r.k),
        primal_maps_ok(pu, a, &r.k, r.p_map@, r.a_map@, r.diag_map@),
        dual_map_ok(pu, a, &r.k, r.rho_map@),
{
    let n = pu.n;
    let m = a.m;
    let ghost none: Seq<HsBlock> = Seq::empty();
    let mut trips: Vec<(usize, usize, KktSource)> = Vec::new();
    let has = push_p_entries(pu, a, &mut trips);
    push_sigma_diagonal(pu, a, &has, &mut trips, Ghost(none));
    let ghost t1 = trips@;
    push_a_transpose(pu, a, &mut trips, Ghost(none));
    let ghost t2 = trips@;
    push_dual_diagonal(pu, a, &mut trips);
    proof {
        lemma_trips_distinct(pu, a, none, trips@);
        assert forall|c: int, p: int| #[trigger] a.entry_in_col(c, p) implies
            exists|t: int| 0 <= t < trips@.len() && #[trigger] trips@[t] == (c as usize, (pu.n + a.row_idx@[p]) as usize, KktSource::A(p as usize)) by {
            let t = choose|t: int| 0 <= t < t2.len() && #[trigger] t2[t] == (c as usize, (pu.n + a.row_idx@[p]) as usize, KktSource::A(p as usize));
            assert(trips@[t] == t2[t]);
        }
        assert forall|j: int| 0 <= j < pu.n && !has_diag(pu, j) implies
            exists|t: int| 0 <= t < trips@.len() && #[trigger] trips@[t] == (j as usize, j as usize, KktSource::SigmaDiag(j as usize)) by {
            let t = choose|t: int| 0 <= t < t1.len() && #[trigger] t1[t] == (j as usize, j as usize, KktSource::SigmaDiag(j as usize));
            assert(t2[t] == t1[t]);
            assert(trips@[t] == t2[t]);
        }
        assert forall|j: int, q: int| #[trigger] pu.entry_in_col(j, q) implies
            trips@[q] == (pu.row_idx@[q], j as usize, KktSource::P(q as usize)) by {
            assert(pu.col_ptr@[j + 1] <= pu.col_ptr@[n as int]);
            assert(t1[q] == (pu.row_idx@[q], j as usize, KktSource::P(q as usize)));
            assert(t2[q] == t1[q]);
        }
    }
    let ntot = n + m;
    let k = CscMatrix::from_unique_triplets(ntot, ntot, &trips);
    proof {
        lemma_primal_trips_present(pu, a, none, &k, trips@);
        lemma_entries_sourced(pu, a, none, &k, trips@);
    }
    let p_map = map_p_entries(pu, a, &k);
    let a_map = map_a_entries(pu, a, &k);
    let diag_map = map_diagonal(&k, 0, n);
    let rho_map = map_dual_diagonal(&k, n, m, Ghost(trips@));
    proof {
        assert forall|j: int| 0 <= j < pu.n implies #[trigger] stored_at(&k, diag_map@[j] as int, j, j) by {
            assert(stored_at(&k, diag_map@[j] as int, 0 + j, 0 + j));
        }
    }
    let r = KktPattern { k, p_map, a_map, diag_map, rho_map };
    assert(dual_map_ok(pu, a, &r.k, r.rho_map@));
    r
}


/// `k` stores the value of triplet `e` at its position.
pub open spec fn holds_trip(k: &CscMatrix<KktSource>, e: (usize, usize, KktSource)) -> bool {
    k.has_entry(e.0 as int, e.1 as int, e.2)
}

/// Two scaling blocks have the same kind, offset, dimension and number of slots.
pub open spec fn same_shape(x: HsBlock, y: HsBlock) -> bool {
    match (x, y) {
        (HsBlock::Diagonal { off: o1, indices: i1 }, HsBlock::Diagonal { off: o2, indices: i2 }) =>
            o1 == o2 && i1@.len() == i2@.len(),
        (HsBlock::DenseUpper { off: o1, dim: d1, indices: i1 }, HsBlock::DenseUpper { off: o2, dim: d2, indices: i2 }) =>
            o1 == o2 && d1 == d2 && i1@.len() == i2@.len(),
        _ => false,
    }
}

/// `out` is block `b` (which is `blk`) with, for every packed entry, its
/// position in `k`, whose label is that packed entry.
pub open spec fn block_located(k: &CscMatrix<KktSource>, n: int, blk: HsBlock, b: int, out: HsBlock) -> bool {
    &&& same_shape(blk, out)
    &&& forall|i: int, j: int| #[trigger] blk.block_pos(i, j) ==>
        stored_at(k, out.spec_indices()[blk.packed_index(i, j)] as int, n + blk.spec_off() + i, n + blk.spec_off() + j)
        && k.x@[out.spec_indices()[blk.packed_index(i, j)] as int] == KktSource::Hs(b as usize, blk.packed_index(i, j) as usize)
}

/// `out` locates every packed entry of every block of `blocks` in `k`.
pub open spec fn hs_maps_ok<T>(pu: &CscMatrix<T>, blocks: Seq<HsBlock>, k: &CscMatrix<KktSource>, out: Seq<HsBlock>) -> bool {
    &&& out.len() == blocks.len()
    &&& forall|b: int| 0 <= b < blocks.len() ==> #[trigger] block_located(k, pu.n as int, blocks[b], b, out[b])
}

/// The positions in `k` of the packed entries of the diagonal block `b`.
fn map_diag_block(k: &CscMatrix<KktSource>, n: usize, m: usize, blocks: &[HsBlock], b: usize, off: usize, len: usize)
    -> (idx: Vec<usize>)
    requires
        k.canonical(),
        k.n == n + m,
        n + m < usize::MAX,
        blocks_ok(blocks@, m as int),
        b < blocks@.len(),
        blocks@[b as int] is Diagonal,
        blocks@[b as int].spec_off() == off,
        blocks@[b as int].spec_dim() == len,
        forall|i: int, j: int| #[trigger] blocks@[b as int].block_pos(i, j) ==>
            holds_trip(k, hs_entry(n as int, blocks@[b as int], b as int, i, j)),
    ensures
        idx@.len() == len,
        forall|i: int, j: int| #[trigger] blocks@[b as int].block_pos(i, j) ==>
            stored_at(k, idx@[blocks@[b as int].packed_index(i, j)] as int, n + off + i, n + off + j)
            && k.x@[idx@[blocks@[b as int].packed_index(i, j)] as int] == KktSource::Hs(b, blocks@[b as int].packed_index(i, j) as usize),
{
    let ghost blk = blocks@[b as int];
    assert(0 <= blk.spec_off() && blk.spec_off() + blk.spec_dim() <= m);
    let mut idx: Vec<usize> = Vec::new();
    let mut i: usize = 0;
    while i < len
        invariant
            k.canonical(),
            k.n == n + m,
            n + m < usize::MAX,
            blk == blocks@[b as int],
            blk is Diagonal,
            blk.spec_off() == off,
            blk.spec_dim() == len,
            off + len <= m,
            i <= len,
            forall|i: int, j: int| #[trigger] blk.block_pos(i, j) ==>
                holds_trip(k, hs_entry(n as int, blk, b as int, i, j)),
            idx@.len() == i,
            forall|ii: int, jj: int| #[trigger] blk.block_pos(ii, jj) && ii < i ==>
                stored_at(k, idx@[blk.packed_index(ii, jj)] as int, n + off + ii, n + off + jj)
                && k.x@[idx@[blk.packed_index(ii, jj)] as int] == KktSource::Hs(b, blk.packed_index(ii, jj) as usize),
        decreases len - i,
    {
        assert(blk.block_pos(i as int, i as int));
        let q = locate(k, n + off + i, n + off + i, Ghost(KktSource::Hs(b, i)));
        idx.push(q);
        i = i + 1;
    }
    idx
}

/// The positions in `k` of the packed entries of the dense block `b`.
fn map_dense_block(k: &CscMatrix<KktSource>, n: usize, m: usize, blocks: &[HsBlock], b: usize, off: usize, dim: usize,
    plen: usize) -> (idx: Vec<usize>)
    requires
        k.canonical(),
        k.n == n + m,
        n + m < usize::MAX,
        blocks_ok(blocks@, m as int),
        b < blocks@.len(),
        blocks@[b as int] is DenseUpper,
        blocks@[b as int].spec_off() == off,
        blocks@[b as int].spec_dim() == dim,
        blocks@[b as int].spec_indices().len() == plen,
        forall|i: int, j: int| #[trigger] blocks@[b as int].block_pos(i, j) ==>
            holds_trip(k, hs_entry(n as int, blocks@[b as int], b as int, i, j)),
    ensures
        idx@.len() == plen,
        forall|i: int, j: int| #[trigger] blocks@[b as int].block_pos(i, j) ==>
            stored_at(k, idx@[blocks@[b as int].packed_index(i, j)] as int, n + off + i, n + off + j)
            && k.x@[idx@[blocks@[b as int].packed_index(i, j)] as int] == KktSource::Hs(b, blocks@[b as int].packed_index(i, j) as usize),
{
    let ghost blk = blocks@[b as int];
    assert(0 <= blk.spec_off() && blk.spec_off() + blk.spec_dim() <= m);
    assert(plen == tri_len(dim as int));
    let mut idx: Vec<usize> = Vec::new();
    let mut t: usize = 0;
    let mut j: usize = 0;
    while j < dim
        invariant
            k.canonical(),
            k.n == n + m,
            n + m < usize::MAX,
            blk == blocks@[b as int],
            blk is DenseUpper,
            blk.spec_off() == off,
            blk.spec_dim() == dim,
            off + dim <= m,
            plen == tri_len(dim as int),
            j <= dim,
            t == tri_len(j as int),
            forall|i: int, j: int| #[trigger] blk.block_pos(i, j) ==>
                holds_trip(k, hs_entry(n as int, blk, b as int, i, j)),
            idx@.len() == t,
            forall|ii: int, jj: int| #[trigger] blk.block_pos(ii, jj) && jj < j ==>
                stored_at(k, idx@[blk.packed_index(ii, jj)] as int, n + off + ii, n + off + jj)
                && k.x@[idx@[blk.packed_index(ii, jj)] as int] == KktSource::Hs(b, blk.packed_index(ii, jj) as usize),
        decreases dim - j,
    {
        proof {
            lemma_tri_len_step(j as int);
            lemma_tri_len_mono(j + 1, dim as int);
        }
        let mut i: usize = 0;
        while i <= j
            invariant
                k.canonical(),
                k.n == n + m,
                n + m < usize::MAX,
                blk == blocks@[b as int],
                blk is DenseUpper,
                blk.spec_off() == off,
                blk.spec_dim() == dim,
                off + dim <= m,
                j < dim,
                i <= j + 1,
                t == tri_len(j as int) + i,
                tri_len(j as int) + j + 1 <= plen,
                forall|i: int, j: int| #[trigger] blk.block_pos(i, j) ==>
                    holds_trip(k, hs_entry(n as int, blk, b as int, i, j)),
                idx@.len() == t,
                forall|ii: int, jj: int| #[trigger] blk.block_pos(ii, jj) && (jj < j || (jj == j && ii < i)) ==>
                    stored_at(k, idx@[blk.packed_index(ii, jj)] as int, n + off + ii, n + off + jj)
                    && k.x@[idx@[blk.packed_index(ii, jj)] as int] == KktSource::Hs(b, blk.packed_index(ii, jj) as usize),
            decreases j + 1 - i,
        {
            assert(blk.block_pos(i as int, j as int));
            let q = locate(k, n + off + i, n + off + j, Ghost(KktSource::Hs(b, t)));
            let ghost old_idx = idx@;
            idx.push(q);
            assert forall|ii: int, jj: int| #[trigger] blk.block_pos(ii, jj) && (jj < j || (jj == j && ii < i + 1)) implies
                stored_at(k, idx@[blk.packed_index(ii, jj)] as int, n + off + ii, n + off + jj)
                && k.x@[idx@[blk.packed_index(ii, jj)] as int] == KktSource::Hs(b, blk.packed_index(ii, jj) as usize) by {
                if !(ii == i as int && jj == j as int) {
                    if jj < j {
                        lemma_tri_len_step(jj);
                        lemma_tri_len_mono(jj + 1, j as int);
                    }
                    assert(idx@[blk.packed_index(ii, jj)] == old_idx[blk.packed_index(ii, jj)]);
                }
            }
            t = t + 1;
            i = i + 1;
        }
        j = j + 1;
    }
    idx
}


/// Every block of `blocks` with the positions of its packed entries in `k`.
fn map_hs_blocks<T>(pu: &CscMatrix<T>, a: &CscMatrix<T>, k: &CscMatrix<KktSource>, blocks: &[HsBlock]) -> (out: Vec<HsBlock>)
    requires
        kkt_inputs_ok(pu, a),
        k.canonical(),
        k.n == pu.n + a.m,
        blocks_ok(blocks@, a.m as int),
        forall|b: int, i: int, j: int| 0 <= b < blocks@.len() && #[trigger] blocks@[b].block_pos(i, j) ==>
            holds_trip(k, hs_entry(pu.n as int, blocks@[b], b, i, j)),
    ensures
        hs_maps_ok(pu, blocks@, k, out@),
{
    let n = pu.n;
    let m = a.m;
    let nb = blocks.len();
    let mut out: Vec<HsBlock> = Vec::new();
    let mut b: usize = 0;
    while b < nb
        invariant
            kkt_inputs_ok(pu, a),
            k.canonical(),
            k.n == pu.n + a.m,
            n == pu.n,
            m == a.m,
            blocks_ok(blocks@, a.m as int),
            forall|b: int, i: int, j: int| 0 <= b < blocks@.len() && #[trigger] blocks@[b].block_pos(i, j) ==>
                holds_trip(k, hs_entry(pu.n as int, blocks@[b], b, i, j)),
            nb == blocks@.len(),
            b <= nb,
            out@.len() == b,
            forall|bb: int| 0 <= bb < b ==> #[trigger] block_located(k, n as int, blocks@[bb], bb, out@[bb]),
        decreases nb - b,
    {
        let ghost blk = blocks@[b as int];
        assert(forall|i: int, j: int| #[trigger] blk.block_pos(i, j) ==> holds_trip(k, hs_entry(n as int, blk, b as int, i, j)));
        let nblk = match &blocks[b] {
            HsBlock::Diagonal { off, indices } => {
                let idx = map_diag_block(k, n, m, blocks, b, *off, indices.len());
                HsBlock::Diagonal { off: *off, indices: idx }
            }
            HsBlock::DenseUpper { off, dim, indices } => {
                let idx = map_dense_block(k, n, m, blocks, b, *off, *dim, indices.len());
                HsBlock::DenseUpper { off: *off, dim: *dim, indices: idx }
            }
        };
        assert(block_located(k, n as int, blk, b as int, nblk));
        out.push(nblk);
        b = b + 1;
    }
    out
}

/// The pattern of the interior point KKT matrix, with the positions in `k` of
/// the entries of `P` (`p_map`), of `A` (`a_map`), of the primal diagonal
/// (`diag_p`), and the scaling blocks with the positions of their packed
/// entries (`blocks`).
#[derive(Clone, Debug)]
pub struct IpmKktPattern {
    pub k: CscMatrix<KktSource>,
    pub p_map: Vec<usize>,
    pub a_map: Vec<usize>,
    pub diag_p: Vec<usize>,
    pub blocks: Vec<HsBlock>,
}

/// Assembles the pattern of the interior point KKT matrix
///
/// ```text
/// K = [ P + sigma I   A'  ]
///     [ A            -Hs  ]
/// ```
///
/// stored by its upper triangle, where `Hs` has one block per entry of
/// `blocks`; `pu` is the upper triangle of `P`.
pub fn assemble_with_blocks<T>(pu: &CscMatrix<T>, a: &CscMatrix<T>, blocks: &[HsBlock]) -> (r: IpmKktPattern)
    requires
        kkt_inputs_ok(pu, a),
        blocks_ok(blocks@, a.m as int),
    ensures
        kkt_matrix_ok(pu, a, blocks@, &r.k),
        primal_maps_ok(pu, a, &r.k, r.p_map@, r.a_map@, r.diag_p@),
        hs_maps_ok(pu, blocks@, &r.k, r.blocks@),
        no_dual_entries(&r.k),
        blocks_ok(r.blocks@, a.m as int),
{
    let n = pu.n;
    let m = a.m;
    let ghost bs = blocks@;
    let mut trips: Vec<(usize, usize, KktSource)> = Vec::new();
    let has = push_p_entries(pu, a, &mut trips);
    push_sigma_diagonal(pu, a, &has, &mut trips, Ghost(bs));
    let ghost t1 = trips@;
    push_a_transpose(pu, a, &mut trips, Ghost(bs));
    let ghost t2 = trips@;
    push_hs_blocks(pu, a, blocks, &mut trips);
    proof {
        lemma_trips_distinct(pu, a, bs, trips@);
        assert forall|c: int, p: int| #[trigger] a.entry_in_col(c, p) implies
            exists|t: int| 0 <= t < trips@.len() && #[trigger] trips@[t] == (c as usize, (pu.n + a.row_idx@[p]) as usize, KktSource::A(p as usize)) by {
            let t = choose|t: int| 0 <= t < t2.len() && #[trigger] t2[t] == (c as usize, (pu.n + a.row_idx@[p]) as usize, KktSource::A(p as usize));
            assert(trips@[t] == t2[t]);
        }
        assert forall|j: int| 0 <= j < pu.n && !has_diag(pu, j) implies
            exists|t: int| 0 <= t < trips@.len() && #[trigger] trips@[t] == (j as usize, j as usize, KktSource::SigmaDiag(j as usize)) by {
            let t = choose|t: int| 0 <= t < t1.len() && #[trigger] t1[t] == (j as usize, j as usize, KktSource::SigmaDiag(j as usize));
            assert(t2[t] == t1[t]);
            assert(trips@[t] == t2[t]);
        }
        assert forall|j: int, q: int| #[trigger] pu.entry_in_col(j, q) implies
            trips@[q] == (pu.row_idx@[q], j as usize, KktSource::P(q as usize)) by {
            assert(pu.col_ptr@[j + 1] <= pu.col_ptr@[n as int]);
            assert(t1[q] == (pu.row_idx@[q], j as usize, KktSource::P(q as usize)));
            assert(t2[q] == t1[q]);
        }
    }
    let ntot = n + m;
    let k = CscMatrix::from_unique_triplets(ntot, ntot, &trips);
    proof {
        lemma_primal_trips_present(pu, a, bs, &k, trips@);
        lemma_entries_sourced(pu, a, bs, &k, trips@);
        assert forall|j: int, q: int| #[trigger] k.entry_in_col(j, q) implies !(k.x@[q] is DualDiag) by {
            let t = choose|t: int| 0 <= t < trips@.len() && #[trigger] trips@[t] == (k.row_idx@[q], j as usize, k.x@[q]);
            if t < t2.len() {
                assert(src_lt(t2[t].2, KktSource::DualDiag(0)));
            }
        }
        assert forall|b: int, i: int, j: int| 0 <= b < bs.len() && #[trigger] bs[b].block_pos(i, j) implies
            holds_trip(&k, hs_entry(pu.n as int, bs[b], b, i, j)) by {
            assert(trips@.contains(hs_entry(pu.n as int, bs[b], b, i, j)));
            let t = choose|t: int| 0 <= t < trips@.len() && trips@[t] == hs_entry(pu.n as int, bs[b], b, i, j);
            assert(k.has_entry(trips@[t].0 as int, trips@[t].1 as int, trips@[t].2));
        }
    }
    let p_map = map_p_entries(pu, a, &k);
    let a_map = map_a_entries(pu, a, &k);
    let diag_p = map_diagonal(&k, 0, n);
    let out_blocks = map_hs_blocks(pu, a, &k, blocks);
    proof {
        assert forall|j: int| 0 <= j < pu.n implies #[trigger] stored_at(&k, diag_p@[j] as int, j, j) by {
            assert(stored_at(&k, diag_p@[j] as int, 0 + j, 0 + j));
        }
    }
    proof {
        assert forall|b: int| 0 <= b < bs.len() implies #[trigger] same_shape(bs[b], out_blocks@[b]) by {
            assert(block_located(&k, pu.n as int, bs[b], b, out_blocks@[b]));
        }
        lemma_blocks_ok_same_shape(bs, out_blocks@, a.m as int);
    }
    IpmKktPattern { k, p_map, a_map, diag_p, blocks: out_blocks }
}


/// `blk` has the shape of the scaling block of cone `c` at offset `off`:
/// diagonal exactly for polyhedral cones, of the cone's dimension, with one
/// slot per packed entry.
pub open spec fn cone_block_shape<A>(c: Cone<A>, off: int, blk: HsBlock) -> bool {
    &&& blk.spec_off() == off
    &&& (blk is Diagonal <==> c.spec_is_polyhedral())
    &&& blk.spec_dim() == c.spec_dim()
    &&& blk.spec_indices().len() == c.spec_hs_packed_len()
}

/// One block per cone, each of the shape of its cone's scaling block.
pub open spec fn blocks_fit_cones<A>(cc: &CompositeCone<A>, blocks: Seq<HsBlock>) -> bool {
    &&& blocks.len() == cc.cones@.len()
    &&& forall|k: int| 0 <= k < blocks.len() ==>
        #[trigger] cone_block_shape(cc.cones@[k], cc.offsets@[k] as int, blocks[k])
}

/// A vector of `len` zeros.
fn zero_slots(len: usize) -> (v: Vec<usize>)
    ensures
        v@.len() == len,
        forall|i: int| 0 <= i < len ==> #[trigger] v@[i] == 0,
{
    let mut v: Vec<usize> = Vec::new();
    let mut i: usize = 0;
    while i < len
        invariant
            i <= len,
            v@.len() == i,
            forall|k: int| 0 <= k < i ==> #[trigger] v@[k] == 0,
        decreases len - i,
    {
        v.push(0);
        i = i + 1;
    }
    v
}

/// One scaling block per cone, at the cone's offset: diagonal for polyhedral
/// cones, a dense packed upper triangle otherwise; every slot is 0 until the
/// blocks are located in a KKT matrix.
pub fn hs_block_placeholders<A>(cones: &CompositeCone<A>) -> (r: Vec<HsBlock>)
    requires
        cones.wf(),
        forall|k: int| 0 <= k < cones.cones@.len() ==> (#[trigger] cones.cones@[k]).packed_fits(),
    ensures
        blocks_fit_cones(cones, r@),
        forall|k: int, t: int| 0 <= k < r@.len() && 0 <= t < r@[k].spec_indices().len() ==>
            #[trigger] r@[k].spec_indices()[t] == 0,
        blocks_ok(r@, cones.dim as int),
{
    let nc = cones.cones.len();
    let mut r: Vec<HsBlock> = Vec::new();
    let mut k: usize = 0;
    while k < nc
        invariant
            cones.wf(),
            forall|k: int| 0 <= k < cones.cones@.len() ==> (#[trigger] cones.cones@[k]).packed_fits(),
            nc == cones.cones@.len(),
            k <= nc,
            r@.len() == k,
            forall|kk: int| 0 <= kk < k ==>
                #[trigger] cone_block_shape(cones.cones@[kk], cones.offsets@[kk] as int, r@[kk]),
            forall|kk: int, t: int| 0 <= kk < r@.len() && 0 <= t < r@[kk].spec_indices().len() ==>
                #[trigger] r@[kk].spec_indices()[t] == 0,
        decreases nc - k,
    {
        let cone = &cones.cones[k];
        let off = cones.offsets[k];
        let d = cone.dim();
        let blk = if cone.hs_is_diagonal() {
            HsBlock::Diagonal { off, indices: zero_slots(d) }
        } else {
            let len = cone.hs_packed_len();
            HsBlock::DenseUpper { off, dim: d, indices: zero_slots(len) }
        };
        let ghost old_r = r@;
        r.push(blk);
        assert forall|kk: int, t: int| 0 <= kk < r@.len() && 0 <= t < r@[kk].spec_indices().len() implies
            #[trigger] r@[kk].spec_indices()[t] == 0 by {
            if kk < k {
                assert(r@[kk] == old_r[kk]);
            }
        }
        k = k + 1;
    }
    proof {
        let bs = r@;
        assert forall|b: int| 0 <= b < bs.len() implies
            0 <= (#[trigger] bs[b]).spec_off() && bs[b].spec_off() + bs[b].spec_dim() <= cones.dim by {
            assert(cone_block_shape(cones.cones@[b], cones.offsets@[b] as int, bs[b]));
            lemma_cones_disjoint(cones, b, bs.len() as int);
        }
        assert forall|b1: int, b2: int| #![trigger bs[b1], bs[b2]] 0 <= b1 < b2 < bs.len() implies
            bs[b1].spec_off() + bs[b1].spec_dim() <= bs[b2].spec_off() by {
            assert(cone_block_shape(cones.cones@[b1], cones.offsets@[b1] as int, bs[b1]));
            assert(cone_block_shape(cones.cones@[b2], cones.offsets@[b2] as int, bs[b2]));
            lemma_cones_disjoint(cones, b1, b2);
        }
        assert forall|b: int| 0 <= b < bs.len() implies (#[trigger] bs[b] is DenseUpper ==>
            bs[b].spec_indices().len() == tri_len(bs[b].spec_dim())) by {
            assert(cone_block_shape(cones.cones@[b], cones.offsets@[b] as int, bs[b]));
        }
    }
    r
}


/// Blocks of the same shape sit at the same place and pack their entries alike.
proof fn lemma_same_shape(x: HsBlock, y: HsBlock)
    requires
        same_shape(x, y),
    ensures
        x.spec_off() == y.spec_off(),
        x.spec_dim() == y.spec_dim(),
        x.spec_indices().len() == y.spec_indices().len(),
        (x is Diagonal) == (y is Diagonal),
        forall|i: int, j: int| x.block_pos(i, j) == y.block_pos(i, j) && x.packed_index(i, j) == y.packed_index(i, j),
        forall|t: int, i: int, j: int| x.packed_at(t, i, j) == y.packed_at(t, i, j),
{
}

/// Relabelling the blocks by blocks of the same shapes changes nothing in the
/// KKT matrix, its locations, or the cones the blocks fit.
proof fn lemma_reshape_blocks<T, A>(pu: &CscMatrix<T>, a: &CscMatrix<T>, cones: &CompositeCone<A>,
    x: Seq<HsBlock>, y: Seq<HsBlock>, k: &CscMatrix<KktSource>)
    requires
        x.len() == y.len(),
        forall|b: int| 0 <= b < x.len() ==> #[trigger] same_shape(x[b], y[b]),
        kkt_matrix_ok(pu, a, x, k),
        hs_maps_ok(pu, x, k, y),
        blocks_fit_cones(cones, x),
    ensures
        kkt_matrix_ok(pu, a, y, k),
        hs_maps_ok(pu, y, k, y),
        blocks_fit_cones(cones, y),
{
    assert forall|j: int, q: int| #[trigger] k.entry_in_col(j, q) implies
        source_ok(pu, a, y, (k.row_idx@[q], j as usize, k.x@[q])) by {
        assert(source_ok(pu, a, x, (k.row_idx@[q], j as usize, k.x@[q])));
        if let KktSource::Hs(b, t) = k.x@[q] {
            lemma_same_shape(x[b as int], y[b as int]);
        }
    }
    assert forall|b: int| 0 <= b < y.len() implies #[trigger] block_located(k, pu.n as int, y[b], b, y[b]) by {
        assert(block_located(k, pu.n as int, x[b], b, y[b]));
        lemma_same_shape(x[b], y[b]);
        assert forall|i: int, j: int| #[trigger] y[b].block_pos(i, j) implies
            stored_at(k, y[b].spec_indices()[y[b].packed_index(i, j)] as int, pu.n + y[b].spec_off() + i, pu.n + y[b].spec_off() + j)
            && k.x@[y[b].spec_indices()[y[b].packed_index(i, j)] as int] == KktSource::Hs(b as usize, y[b].packed_index(i, j) as usize) by {
            assert(x[b].block_pos(i, j));
        }
        assert(same_shape(y[b], y[b]));
    }
    assert forall|b: int| 0 <= b < y.len() implies
        #[trigger] cone_block_shape(cones.cones@[b], cones.offsets@[b] as int, y[b]) by {
        assert(cone_block_shape(cones.cones@[b], cones.offsets@[b] as int, x[b]));
        lemma_same_shape(x[b], y[b]);
    }
}

/// Assembles the pattern of the interior point KKT matrix for the cones
/// `cones`, with one scaling block per cone (see `hs_block_placeholders`).
pub fn assemble<T, A>(pu: &CscMatrix<T>, a: &CscMatrix<T>, cones: &CompositeCone<A>) -> (r: IpmKktPattern)
    requires
        kkt_inputs_ok(pu, a),
        cones.wf(),
        forall|k: int| 0 <= k < cones.cones@.len() ==> (#[trigger] cones.cones@[k]).packed_fits(),
        cones.dim == a.m,
    ensures
        blocks_fit_cones(cones, r.blocks@),
        kkt_matrix_ok(pu, a, r.blocks@, &r.k),
        primal_maps_ok(pu, a, &r.k, r.p_map@, r.a_map@, r.diag_p@),
        hs_maps_ok(pu, r.blocks@, &r.k, r.blocks@),
        no_dual_entries(&r.k),
        blocks_ok(r.blocks@, a.m as int),
{
    let blocks = hs_block_placeholders(cones);
    let r = assemble_with_blocks(pu, a, &blocks);
    proof {
        assert forall|b: int| 0 <= b < blocks@.len() implies #[trigger] same_shape(blocks@[b], r.blocks@[b]) by {
            assert(block_located(&r.k, pu.n as int, blocks@[b], b, r.blocks@[b]));
        }
        lemma_reshape_blocks(pu, a, cones, blocks@, r.blocks@, &r.k);
    }
    r
}


/// Every source that `source_ok` admits (but the dual diagonal unless `dual`)
/// is stored in `k` with its label.
pub open spec fn covers<T>(pu: &CscMatrix<T>, a: &CscMatrix<T>, blocks: Seq<HsBlock>, k: &CscMatrix<KktSource>, dual: bool) -> bool {
    forall|e: (usize, usize, KktSource)| #[trigger] source_ok(pu, a, blocks, e) && (dual || !(e.2 is DualDiag)) ==>
        holds_trip(k, e)
}

/// The entries of `P`, the sigma diagonal and `A'` are all stored in `k`.
proof fn lemma_primal_covered<T>(pu: &CscMatrix<T>, a: &CscMatrix<T>, blocks: Seq<HsBlock>, k: &CscMatrix<KktSource>,
    p_map: Seq<usize>, a_map: Seq<usize>, diag_map: Seq<usize>, e: (usize, usize, KktSource))
    requires
        kkt_inputs_ok(pu, a),
        blocks_ok(blocks, a.m as int),
        kkt_matrix_ok(pu, a, blocks, k),
        primal_maps_ok(pu, a, k, p_map, a_map, diag_map),
        source_ok(pu, a, blocks, e),
        e.2 is P || e.2 is SigmaDiag || e.2 is A,
    ensures
        holds_trip(k, e),
{
    match e.2 {
        KktSource::P(p) => {
            let q = p_map[p as int] as int;
            assert(pu.entry_in_col(e.1 as int, p as int));
            assert(k.entry_in_col(e.1 as int, q) && k.row_idx@[q] == e.0 && k.x@[q] == e.2);
        }
        KktSource::SigmaDiag(j) => {
            let q = diag_map[j as int] as int;
            assert(stored_at(k, q, j as int, j as int));
            let lab = (k.row_idx@[q], j, k.x@[q]);
            assert(source_ok(pu, a, blocks, lab));
            lemma_position_determines_source(pu, a, blocks, lab, e);
        }
        KktSource::A(p) => {
            let q = a_map[p as int] as int;
            assert(a.entry_in_col(e.0 as int, p as int));
            assert(k.entry_in_col(e.1 as int, q) && k.row_idx@[q] == e.0 && k.x@[q] == e.2);
        }
        _ => {}
    }
}

/// The splitting assembly stores every source.
proof fn lemma_split_covers<T>(pu: &CscMatrix<T>, a: &CscMatrix<T>, k: &CscMatrix<KktSource>,
    p_map: Seq<usize>, a_map: Seq<usize>, diag_map: Seq<usize>, rho_map: Seq<usize>)
    requires
        kkt_inputs_ok(pu, a),
        kkt_matrix_ok(pu, a, Seq::empty(), k),
        primal_maps_ok(pu, a, k, p_map, a_map, diag_map),
        dual_map_ok(pu, a, k, rho_map),
    ensures
        covers(pu, a, Seq::empty(), k, true),
{
    assert forall|e: (usize, usize, KktSource)| #[trigger] source_ok(pu, a, Seq::empty(), e) && (true || !(e.2 is DualDiag)) implies
        holds_trip(k, e) by {
        if let KktSource::DualDiag(r) = e.2 {
            let q = rho_map[r as int] as int;
            assert(stored_at(k, q, pu.n + r, pu.n + r));
            assert(k.entry_in_col(e.1 as int, q) && k.row_idx@[q] == e.0 && k.x@[q] == e.2);
        } else {
            lemma_primal_covered(pu, a, Seq::empty(), k, p_map, a_map, diag_map, e);
        }
    }
}

/// The interior point assembly stores every source but the dual diagonal.
proof fn lemma_ipm_covers<T>(pu: &CscMatrix<T>, a: &CscMatrix<T>, blocks: Seq<HsBlock>, k: &CscMatrix<KktSource>,
    p_map: Seq<usize>, a_map: Seq<usize>, diag_map: Seq<usize>, out: Seq<HsBlock>)
    requires
        kkt_inputs_ok(pu, a),
        blocks_ok(blocks, a.m as int),
        kkt_matrix_ok(pu, a, blocks, k),
        primal_maps_ok(pu, a, k, p_map, a_map, diag_map),
        hs_maps_ok(pu, blocks, k, out),
    ensures
        covers(pu, a, blocks, k, false),
{
    let n = pu.n as int;
    assert forall|e: (usize, usize, KktSource)| #[trigger] source_ok(pu, a, blocks, e) && (false || !(e.2 is DualDiag)) implies
        holds_trip(k, e) by {
        if let KktSource::Hs(b, t) = e.2 {
            let blk = blocks[b as int];
            let i = e.0 - n - blk.spec_off();
            let j = e.1 - n - blk.spec_off();
            assert(blk.packed_at(t as int, i, j));
            assert(blk.block_pos(i, j) && blk.packed_index(i, j) == t);
            assert(block_located(k, n, blk, b as int, out[b as int]));
            let q = out[b as int].spec_indices()[t as int] as int;
            assert(k.entry_in_col(e.1 as int, q) && k.row_idx@[q] == e.0 && k.x@[q] == e.2);
        } else {
            lemma_primal_covered(pu, a, blocks, k, p_map, a_map, diag_map, e);
        }
    }
}

/// Two assemblies of data with the same patterns and blocks of the same
/// shapes, each storing every admitted source, store the same entries.
proof fn lemma_entries_agree<T>(pu1: &CscMatrix<T>, a1: &CscMatrix<T>, x1: Seq<HsBlock>, k1: &CscMatrix<KktSource>,
    pu2: &CscMatrix<T>, a2: &CscMatrix<T>, x2: Seq<HsBlock>, k2: &CscMatrix<KktSource>, dual: bool)
    requires
        same_structure(pu1, pu2),
        same_structure(a1, a2),
        x1.len() == x2.len(),
        forall|b: int| 0 <= b < x1.len() ==> #[trigger] same_shape(x1[b], x2[b]),
        kkt_matrix_ok(pu1, a1, x1, k1),
        kkt_matrix_ok(pu2, a2, x2, k2),
        dual || no_dual_entries(k1),
        dual || no_dual_entries(k2),
        covers(pu1, a1, x1, k1, dual),
        covers(pu2, a2, x2, k2, dual),
    ensures
        same_entries(k1, k2),
{
    assert forall|e: (usize, usize, KktSource)| source_ok(pu1, a1, x1, e) == source_ok(pu2, a2, x2, e) by {
        match e.2 {
            KktSource::Hs(b, t) => {
                if 0 <= b < x1.len() {
                    lemma_same_shape(x1[b as int], x2[b as int]);
                }
            }
            KktSource::SigmaDiag(j) => {
                if has_diag(pu1, j as int) {
                    let q = choose|q: int| #[trigger] pu1.entry_in_col(j as int, q) && pu1.row_idx@[q] == j;
                    assert(pu2.entry_in_col(j as int, q));
                }
                if has_diag(pu2, j as int) {
                    let q = choose|q: int| #[trigger] pu2.entry_in_col(j as int, q) && pu2.row_idx@[q] == j;
                    assert(pu1.entry_in_col(j as int, q));
                }
            }
            _ => {}
        }
    }
    assert forall|i: int, j: int, v: KktSource| #![trigger k1.has_entry(i, j, v)] #![trigger k2.has_entry(i, j, v)]
        k1.has_entry(i, j, v) <==> k2.has_entry(i, j, v) by {
        if k1.has_entry(i, j, v) {
            let q = choose|q: int| #[trigger] k1.entry_in_col(j, q) && k1.row_idx@[q] == i && k1.x@[q] == v;
            let e = (k1.row_idx@[q], j as usize, k1.x@[q]);
            assert(source_ok(pu1, a1, x1, e));
            assert(source_ok(pu2, a2, x2, e));
            assert(holds_trip(k2, e));
        }
        if k2.has_entry(i, j, v) {
            let q = choose|q: int| #[trigger] k2.entry_in_col(j, q) && k2.row_idx@[q] == i && k2.x@[q] == v;
            let e = (k2.row_idx@[q], j as usize, k2.x@[q]);
            assert(source_ok(pu2, a2, x2, e));
            assert(source_ok(pu1, a1, x1, e));
            assert(holds_trip(k1, e));
        }
    }
}

/// A position of a canonical matrix is found at one place only, in any matrix
/// of the same pattern.
proof fn lemma_stored_unique(k1: &CscMatrix<KktSource>, k2: &CscMatrix<KktSource>, q1: int, q2: int, i: int, j: int)
    requires
        k1.canonical(),
        same_structure(k1, k2),
        stored_at(k1, q1, i, j),
        stored_at(k2, q2, i, j),
    ensures
        q1 == q2,
{
    k1.lemma_position_unique(j, q1, q2);
}

/// Equal index sequences, entry by entry.
proof fn lemma_maps_agree(k1: &CscMatrix<KktSource>, k2: &CscMatrix<KktSource>, m1: Seq<usize>, m2: Seq<usize>)
    requires
        m1.len() == m2.len(),
        forall|t: int| 0 <= t < m1.len() ==> #[trigger] m1[t] == m2[t],
    ensures
        m1 == m2,
{
    assert(m1 =~= m2);
}

/// Refreshing the values of `P` and `A` on their patterns (an update of class
/// R1) leaves the splitting KKT pattern, its labels and all maps unchanged, so
/// its ordering and symbolic factorization stay valid.
pub proof fn lemma_assemble_upper_same_pattern<T>(pu1: &CscMatrix<T>, a1: &CscMatrix<T>, r1: &KktPattern,
    pu2: &CscMatrix<T>, a2: &CscMatrix<T>, r2: &KktPattern)
    requires
        kkt_inputs_ok(pu1, a1),
        kkt_inputs_ok(pu2, a2),
        same_structure(pu1, pu2),
        same_structure(a1, a2),
        kkt_matrix_ok(pu1, a1, Seq::empty(), &r1.k),
        primal_maps_ok(pu1, a1, &r1.k, r1.p_map@, r1.a_map@, r1.diag_map@),
        dual_map_ok(pu1, a1, &r1.k, r1.rho_map@),
        kkt_matrix_ok(pu2, a2, Seq::empty(), &r2.k),
        primal_maps_ok(pu2, a2, &r2.k, r2.p_map@, r2.a_map@, r2.diag_map@),
        dual_map_ok(pu2, a2, &r2.k, r2.rho_map@),
    ensures
        same_structure(&r1.k, &r2.k),
        r1.k.x@ == r2.k.x@,
        r1.p_map@ == r2.p_map@,
        r1.a_map@ == r2.a_map@,
        r1.diag_map@ == r2.diag_map@,
        r1.rho_map@ == r2.rho_map@,
{
    let k1 = &r1.k;
    let k2 = &r2.k;
    lemma_split_covers(pu1, a1, k1, r1.p_map@, r1.a_map@, r1.diag_map@, r1.rho_map@);
    lemma_split_covers(pu2, a2, k2, r2.p_map@, r2.a_map@, r2.diag_map@, r2.rho_map@);
    lemma_entries_agree(pu1, a1, Seq::empty(), k1, pu2, a2, Seq::empty(), k2, true);
    lemma_canonical_determined(k1, k2);
    assert forall|t: int| 0 <= t < r1.p_map@.len() implies #[trigger] r1.p_map@[t] == r2.p_map@[t] by {
        crate::csc::lemma_col_exists(pu1.col_ptr@, pu1.n as int, pu1.row_idx@.len() as int, t);
        let j = choose|j: int| #[trigger] in_col(pu1.col_ptr@, pu1.n as int, j, t);
        assert(pu1.entry_in_col(j, t) && pu2.entry_in_col(j, t));
        lemma_stored_unique(k1, k2, r1.p_map@[t] as int, r2.p_map@[t] as int, pu1.row_idx@[t] as int, j);
    }
    lemma_maps_agree(k1, k2, r1.p_map@, r2.p_map@);
    assert forall|t: int| 0 <= t < r1.a_map@.len() implies #[trigger] r1.a_map@[t] == r2.a_map@[t] by {
        crate::csc::lemma_col_exists(a1.col_ptr@, a1.n as int, a1.row_idx@.len() as int, t);
        let c = choose|c: int| #[trigger] in_col(a1.col_ptr@, a1.n as int, c, t);
        assert(a1.entry_in_col(c, t) && a2.entry_in_col(c, t));
        lemma_stored_unique(k1, k2, r1.a_map@[t] as int, r2.a_map@[t] as int, c, pu1.n + a1.row_idx@[t]);
    }
    lemma_maps_agree(k1, k2, r1.a_map@, r2.a_map@);
    assert forall|t: int| 0 <= t < r1.diag_map@.len() implies #[trigger] r1.diag_map@[t] == r2.diag_map@[t] by {
        assert(stored_at(k1, r1.diag_map@[t] as int, t, t));
        assert(stored_at(k2, r2.diag_map@[t] as int, t, t));
        lemma_stored_unique(k1, k2, r1.diag_map@[t] as int, r2.diag_map@[t] as int, t, t);
    }
    lemma_maps_agree(k1, k2, r1.diag_map@, r2.diag_map@);
    assert forall|t: int| 0 <= t < r1.rho_map@.len() implies #[trigger] r1.rho_map@[t] == r2.rho_map@[t] by {
        assert(stored_at(k1, r1.rho_map@[t] as int, pu1.n + t, pu1.n + t));
        assert(stored_at(k2, r2.rho_map@[t] as int, pu2.n + t, pu2.n + t));
        lemma_stored_unique(k1, k2, r1.rho_map@[t] as int, r2.rho_map@[t] as int, pu1.n + t, pu1.n + t);
    }
    lemma_maps_agree(k1, k2, r1.rho_map@, r2.rho_map@);
}


/// Every packed index of a triangle of side `d` is the index of a position
/// `(i, j)` of its upper triangle.
proof fn lemma_tri_index(d: int, t: int) -> (ij: (int, int))
    requires
        0 <= d,
        0 <= t < tri_len(d),
    ensures
        0 <= ij.0 <= ij.1 < d,
        tri_len(ij.1) + ij.0 == t,
    decreases d,
{
    if d == 0 {
        assert(tri_len(0) == 0);
        (0, 0)
    } else {
        lemma_tri_len_step(d - 1);
        if t < tri_len(d - 1) {
            lemma_tri_index(d - 1, t)
        } else {
            (t - tri_len(d - 1), d - 1)
        }
    }
}

/// Blocks of the same shapes as blocks that fit in `m` rows fit there too.
proof fn lemma_blocks_ok_same_shape(x: Seq<HsBlock>, y: Seq<HsBlock>, m: int)
    requires
        blocks_ok(x, m),
        x.len() == y.len(),
        forall|b: int| 0 <= b < x.len() ==> #[trigger] same_shape(x[b], y[b]),
    ensures
        blocks_ok(y, m),
{
    assert forall|b: int| 0 <= b < y.len() implies
        0 <= (#[trigger] y[b]).spec_off() && y[b].spec_off() + y[b].spec_dim() <= m by {
        assert(0 <= x[b].spec_off());
        lemma_same_shape(x[b], y[b]);
    }
    assert forall|b1: int, b2: int| #![trigger y[b1], y[b2]] 0 <= b1 < b2 < y.len() implies
        y[b1].spec_off() + y[b1].spec_dim() <= y[b2].spec_off() by {
        assert(x[b1].spec_off() + x[b1].spec_dim() <= x[b2].spec_off());
        lemma_same_shape(x[b1], y[b1]);
        lemma_same_shape(x[b2], y[b2]);
    }
    assert forall|b: int| 0 <= b < y.len() implies (#[trigger] y[b] is DenseUpper ==>
        y[b].spec_indices().len() == tri_len(y[b].spec_dim())) by {
        assert(x[b] is DenseUpper ==> x[b].spec_indices().len() == tri_len(x[b].spec_dim()));
        lemma_same_shape(x[b], y[b]);
    }
}

/// The slots of block `b` located in two equal KKT patterns agree.
proof fn lemma_block_slots_agree(k1: &CscMatrix<KktSource>, k2: &CscMatrix<KktSource>, n: int,
    x1: HsBlock, x2: HsBlock, b: int, o1: HsBlock, o2: HsBlock)
    requires
        k1.canonical(),
        same_structure(k1, k2),
        same_shape(x1, x2),
        x1 is DenseUpper ==> x1.spec_indices().len() == tri_len(x1.spec_dim()),
        block_located(k1, n, x1, b, o1),
        block_located(k2, n, x2, b, o2),
    ensures
        same_shape(o1, o2),
        o1.spec_indices() == o2.spec_indices(),
{
    lemma_same_shape(x1, x2);
    lemma_same_shape(x1, o1);
    lemma_same_shape(x2, o2);
    let s1 = o1.spec_indices();
    let s2 = o2.spec_indices();
    assert forall|t: int| 0 <= t < s1.len() implies s1[t] == s2[t] by {
        let (i, j) = if x1 is Diagonal {
            (t, t)
        } else {
            lemma_tri_index(x1.spec_dim(), t)
        };
        assert(x1.block_pos(i, j) && x1.packed_index(i, j) == t);
        assert(x2.block_pos(i, j));
        lemma_stored_unique(k1, k2, s1[t] as int, s2[t] as int, n + x1.spec_off() + i, n + x1.spec_off() + j);
    }
    assert(s1 =~= s2);
}

/// Refreshing the values of `P` and `A` on their patterns (an update of class
/// R1) leaves the interior point KKT pattern, its labels, the maps and the
/// located scaling blocks unchanged.
pub proof fn lemma_assemble_with_blocks_same_pattern<T>(pu1: &CscMatrix<T>, a1: &CscMatrix<T>, r1: &IpmKktPattern,
    pu2: &CscMatrix<T>, a2: &CscMatrix<T>, r2: &IpmKktPattern, blocks: Seq<HsBlock>)
    requires
        kkt_inputs_ok(pu1, a1),
        kkt_inputs_ok(pu2, a2),
        same_structure(pu1, pu2),
        same_structure(a1, a2),
        blocks_ok(blocks, a1.m as int),
        kkt_matrix_ok(pu1, a1, blocks, &r1.k),
        primal_maps_ok(pu1, a1, &r1.k, r1.p_map@, r1.a_map@, r1.diag_p@),
        hs_maps_ok(pu1, blocks, &r1.k, r1.blocks@),
        no_dual_entries(&r1.k),
        kkt_matrix_ok(pu2, a2, blocks, &r2.k),
        primal_maps_ok(pu2, a2, &r2.k, r2.p_map@, r2.a_map@, r2.diag_p@),
        hs_maps_ok(pu2, blocks, &r2.k, r2.blocks@),
        no_dual_entries(&r2.k),
    ensures
        same_structure(&r1.k, &r2.k),
        r1.k.x@ == r2.k.x@,
        r1.p_map@ == r2.p_map@,
        r1.a_map@ == r2.a_map@,
        r1.diag_p@ == r2.diag_p@,
        r1.blocks@.len() == r2.blocks@.len(),
        forall|b: int| 0 <= b < r1.blocks@.len() ==> #[trigger] same_shape(r1.blocks@[b], r2.blocks@[b])
            && r1.blocks@[b].spec_indices() == r2.blocks@[b].spec_indices(),
{
    lemma_assemble_ipm_same_pattern(pu1, a1, r1, blocks, pu2, a2, r2, blocks);
}

/// The interior point assembly on data with the same patterns and on blocks
/// of the same shapes gives the same pattern, labels, maps and slots.
proof fn lemma_assemble_ipm_same_pattern<T>(pu1: &CscMatrix<T>, a1: &CscMatrix<T>, r1: &IpmKktPattern, x1: Seq<HsBlock>,
    pu2: &CscMatrix<T>, a2: &CscMatrix<T>, r2: &IpmKktPattern, x2: Seq<HsBlock>)
    requires
        kkt_inputs_ok(pu1, a1),
        kkt_inputs_ok(pu2, a2),
        same_structure(pu1, pu2),
        same_structure(a1, a2),
        x1.len() == x2.len(),
        forall|b: int| 0 <= b < x1.len() ==> #[trigger] same_shape(x1[b], x2[b]),
        blocks_ok(x1, a1.m as int),
        kkt_matrix_ok(pu1, a1, x1, &r1.k),
        primal_maps_ok(pu1, a1, &r1.k, r1.p_map@, r1.a_map@, r1.diag_p@),
        hs_maps_ok(pu1, x1, &r1.k, r1.blocks@),
        no_dual_entries(&r1.k),
        kkt_matrix_ok(pu2, a2, x2, &r2.k),
        primal_maps_ok(pu2, a2, &r2.k, r2.p_map@, r2.a_map@, r2.diag_p@),
        hs_maps_ok(pu2, x2, &r2.k, r2.blocks@),
        no_dual_entries(&r2.k),
    ensures
        same_structure(&r1.k, &r2.k),
        r1.k.x@ == r2.k.x@,
        r1.p_map@ == r2.p_map@,
        r1.a_map@ == r2.a_map@,
        r1.diag_p@ == r2.diag_p@,
        r1.blocks@.len() == r2.blocks@.len(),
        forall|b: int| 0 <= b < r1.blocks@.len() ==> #[trigger] same_shape(r1.blocks@[b], r2.blocks@[b])
            && r1.blocks@[b].spec_indices() == r2.blocks@[b].spec_indices(),
{
    let k1 = &r1.k;
    let k2 = &r2.k;
    lemma_blocks_ok_same_shape(x1, x2, a1.m as int);
    lemma_ipm_covers(pu1, a1, x1, k1, r1.p_map@, r1.a_map@, r1.diag_p@, r1.blocks@);
    lemma_ipm_covers(pu2, a2, x2, k2, r2.p_map@, r2.a_map@, r2.diag_p@, r2.blocks@);
    lemma_entries_agree(pu1, a1, x1, k1, pu2, a2, x2, k2, false);
    lemma_canonical_determined(k1, k2);
    assert forall|t: int| 0 <= t < r1.p_map@.len() implies #[trigger] r1.p_map@[t] == r2.p_map@[t] by {
        crate::csc::lemma_col_exists(pu1.col_ptr@, pu1.n as int, pu1.row_idx@.len() as int, t);
        let j = choose|j: int| #[trigger] in_col(pu1.col_ptr@, pu1.n as int, j, t);
        assert(pu1.entry_in_col(j, t) && pu2.entry_in_col(j, t));
        lemma_stored_unique(k1, k2, r1.p_map@[t] as int, r2.p_map@[t] as int, pu1.row_idx@[t] as int, j);
    }
    lemma_maps_agree(k1, k2, r1.p_map@, r2.p_map@);
    assert forall|t: int| 0 <= t < r1.a_map@.len() implies #[trigger] r1.a_map@[t] == r2.a_map@[t] by {
        crate::csc::lemma_col_exists(a1.col_ptr@, a1.n as int, a1.row_idx@.len() as int, t);
        let c = choose|c: int| #[trigger] in_col(a1.col_ptr@, a1.n as int, c, t);
        assert(a1.entry_in_col(c, t) && a2.entry_in_col(c, t));
        lemma_stored_unique(k1, k2, r1.a_map@[t] as int, r2.a_map@[t] as int, c, pu1.n + a1.row_idx@[t]);
    }
    lemma_maps_agree(k1, k2, r1.a_map@, r2.a_map@);
    assert forall|t: int| 0 <= t < r1.diag_p@.len() implies #[trigger] r1.diag_p@[t] == r2.diag_p@[t] by {
        assert(stored_at(k1, r1.diag_p@[t] as int, t, t));
        assert(stored_at(k2, r2.diag_p@[t] as int, t, t));
        lemma_stored_unique(k1, k2, r1.diag_p@[t] as int, r2.diag_p@[t] as int, t, t);
    }
    lemma_maps_agree(k1, k2, r1.diag_p@, r2.diag_p@);
    assert forall|b: int| 0 <= b < r1.blocks@.len() implies #[trigger] same_shape(r1.blocks@[b], r2.blocks@[b])
        && r1.blocks@[b].spec_indices() == r2.blocks@[b].spec_indices() by {
        assert(block_located(k1, pu1.n as int, x1[b], b, r1.blocks@[b]));
        assert(block_located(k2, pu2.n as int, x2[b], b, r2.blocks@[b]));
        assert(x1[b] is DenseUpper ==> x1[b].spec_indices().len() == tri_len(x1[b].spec_dim()));
        lemma_block_slots_agree(k1, k2, pu1.n as int, x1[b], x2[b], b, r1.blocks@[b], r2.blocks@[b]);
    }
}

/// Blocks that fit the same cones have the same shapes.
proof fn lemma_fit_same_shape<A>(cones: &CompositeCone<A>, x: Seq<HsBlock>, y: Seq<HsBlock>)
    requires
        blocks_fit_cones(cones, x),
        blocks_fit_cones(cones, y),
    ensures
        forall|b: int| 0 <= b < x.len() ==> #[trigger] same_shape(x[b], y[b]),
{
    assert forall|b: int| 0 <= b < x.len() implies #[trigger] same_shape(x[b], y[b]) by {
        assert(cone_block_shape(cones.cones@[b], cones.offsets@[b] as int, x[b]));
        assert(cone_block_shape(cones.cones@[b], cones.offsets@[b] as int, y[b]));
    }
}

/// Refreshing the values of `P` and `A` on their patterns (an update of class
/// R1) for the same cones leaves the interior point KKT pattern, its labels,
/// the maps and the located scaling blocks unchanged: the ordering and the
/// symbolic factorization are reused.
pub proof fn lemma_assemble_same_pattern<T, A>(pu1: &CscMatrix<T>, a1: &CscMatrix<T>, r1: &IpmKktPattern,
    pu2: &CscMatrix<T>, a2: &CscMatrix<T>, r2: &IpmKktPattern, cones: &CompositeCone<A>)
    requires
        kkt_inputs_ok(pu1, a1),
        kkt_inputs_ok(pu2, a2),
        same_structure(pu1, pu2),
        same_structure(a1, a2),
        blocks_fit_cones(cones, r1.blocks@),
        blocks_ok(r1.blocks@, a1.m as int),
        kkt_matrix_ok(pu1, a1, r1.blocks@, &r1.k),
        primal_maps_ok(pu1, a1, &r1.k, r1.p_map@, r1.a_map@, r1.diag_p@),
        hs_maps_ok(pu1, r1.blocks@, &r1.k, r1.blocks@),
        no_dual_entries(&r1.k),
        blocks_fit_cones(cones, r2.blocks@),
        kkt_matrix_ok(pu2, a2, r2.blocks@, &r2.k),
        primal_maps_ok(pu2, a2, &r2.k, r2.p_map@, r2.a_map@, r2.diag_p@),
        hs_maps_ok(pu2, r2.blocks@, &r2.k, r2.blocks@),
        no_dual_entries(&r2.k),
    ensures
        same_structure(&r1.k, &r2.k),
        r1.k.x@ == r2.k.x@,
        r1.p_map@ == r2.p_map@,
        r1.a_map@ == r2.a_map@,
        r1.diag_p@ == r2.diag_p@,
        r1.blocks@.len() == r2.blocks@.len(),
        forall|b: int| 0 <= b < r1.blocks@.len() ==> #[trigger] same_shape(r1.blocks@[b], r2.blocks@[b])
            && r1.blocks@[b].spec_indices() == r2.blocks@[b].spec_indices(),
{
    lemma_fit_same_shape(cones, r1.blocks@, r2.blocks@);
    lemma_assemble_ipm_same_pattern(pu1, a1, r1, r1.blocks@, pu2, a2, r2, r2.blocks@);
}

} // verus!
