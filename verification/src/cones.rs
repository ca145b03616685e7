//! Primitive cones and their Cartesian product, as seen by the solver's
//! bookkeeping: dimensions, offsets, barrier degrees and the shape of each
//! cone's scaling block. The exponent type `A` of the power cones is supplied
//! by the numeric layer.

use vstd::prelude::*;

verus! {

/// A primitive cone.
#[derive(Clone, Debug)]
pub enum Cone<A> {
    Zero { dim: usize },
    Nonnegative { dim: usize },
    SecondOrder { dim: usize },
    Exponential,
    DualExponential,
    Power { alpha: A },
    DualPower { alpha: A },
    /// Generalized power cone: `x` in the nonnegative orthant of dimension
    /// `alpha.len()` and `z` of dimension `n_z`.
    GenPower { alpha: Vec<A>, n_z: usize },
    /// Packed upper triangle of a `side x side` symmetric matrix.
    PsdTriangle { side: usize },
}

/// Length of the packed upper triangle of a `side x side` matrix.
pub open spec fn tri_len(side: int) -> int {
    side * (side + 1) / 2
}

/// Adding a column of `side + 1` entries to the triangle of side `side`.
pub proof fn lemma_tri_len_step(side: int)
    requires
        0 <= side,
    ensures
        tri_len(side + 1) == tri_len(side) + side + 1,
        0 <= tri_len(side),
{
    assert((side + 1) * (side + 2) == side * (side + 1) + 2 * (side + 1)) by (nonlinear_arith);
    assert(side * (side + 1) >= 0) by (nonlinear_arith)
        requires 0 <= side;
}

/// The packed triangle grows with its side.
pub proof fn lemma_tri_len_mono(i: int, j: int)
    requires
        0 <= i <= j,
    ensures
        0 <= tri_len(i) <= tri_len(j),
    decreases j - i,
{
    lemma_tri_len_step(i);
    if i < j {
        lemma_tri_len_mono(i + 1, j);
    }
}

/// Length of the packed upper triangle of a `side x side` matrix.
pub fn psd_tri_len(side: usize) -> (r: usize)
    requires
        (side as int) * (side as int + 1) <= usize::MAX,
    ensures
        r == tri_len(side as int),
{
    assert(side < usize::MAX) by (nonlinear_arith)
        requires (side as int) * (side as int + 1) <= usize::MAX;
    side * (side + 1) / 2
}

impl<A> Cone<A> {
    /// Dimension of the cone.
    pub open spec fn spec_dim(&self) -> int {
        match self {
            Cone::Zero { dim } => *dim as int,
            Cone::Nonnegative { dim } => *dim as int,
            Cone::SecondOrder { dim } => *dim as int,
            Cone::Exponential => 3,
            Cone::DualExponential => 3,
            Cone::Power { .. } => 3,
            Cone::DualPower { .. } => 3,
            Cone::GenPower { alpha, n_z } => alpha@.len() as int + *n_z as int,
            Cone::PsdTriangle { side } => tri_len(*side as int),
        }
    }

    /// The dimension and the barrier degree can be computed in `usize`.
    pub open spec fn sizes_fit(&self) -> bool {
        match self {
            Cone::GenPower { alpha, n_z } => alpha@.len() + *n_z as int <= usize::MAX && alpha@.len() < usize::MAX,
            Cone::PsdTriangle { side } => (*side as int) * (*side as int + 1) <= usize::MAX,
            _ => true,
        }
    }

    /// Barrier parameter of the cone.
    pub open spec fn spec_barrier_degree(&self) -> int {
        match self {
            Cone::Zero { .. } => 0,
            Cone::Nonnegative { dim } => *dim as int,
            Cone::SecondOrder { .. } => 1,
            Cone::Exponential => 3,
            Cone::DualExponential => 3,
            Cone::Power { .. } => 3,
            Cone::DualPower { .. } => 3,
            Cone::GenPower { alpha, .. } => alpha@.len() as int + 1,
            Cone::PsdTriangle { side } => *side as int,
        }
    }

    /// Zero and nonnegative cones.
    pub open spec fn spec_is_polyhedral(&self) -> bool {
        self is Zero || self is Nonnegative
    }

    /// Self-dual (symmetric) cones.
    pub open spec fn spec_is_symmetric(&self) -> bool {
        self is Zero || self is Nonnegative || self is SecondOrder || self is PsdTriangle
    }

    /// Length of the packed scaling block: the diagonal for polyhedral cones,
    /// the packed upper triangle of a dense block otherwise.
    pub open spec fn spec_hs_packed_len(&self) -> int {
        if self.spec_is_polyhedral() { self.spec_dim() } else { tri_len(self.spec_dim()) }
    }

    /// The packed scaling block length can be computed in `usize`.
    pub open spec fn packed_fits(&self) -> bool {
        self.sizes_fit() && (self.spec_is_polyhedral() || self.spec_dim() * (self.spec_dim() + 1) <= usize::MAX)
    }

    pub fn dim(&self) -> (r: usize)
        requires
            self.sizes_fit(),
        ensures
            r == self.spec_dim(),
    {
        match self {
            Cone::Zero { dim } => *dim,
            Cone::Nonnegative { dim } => *dim,
            Cone::SecondOrder { dim } => *dim,
            Cone::Exponential => 3,
            Cone::DualExponential => 3,
            Cone::Power { .. } => 3,
            Cone::DualPower { .. } => 3,
            Cone::GenPower { alpha, n_z } => alpha.len() + *n_z,
            Cone::PsdTriangle { side } => psd_tri_len(*side),
        }
    }

    pub fn is_polyhedral(&self) -> (r: bool)
        ensures
            r == self.spec_is_polyhedral(),
    {
        match self {
            Cone::Zero { .. } => true,
            Cone::Nonnegative { .. } => true,
            _ => false,
        }
    }

    /// Barrier parameter degree.
    pub fn barrier_degree(&self) -> (r: usize)
        requires
            self.sizes_fit(),
        ensures
            r == self.spec_barrier_degree(),
    {
        match self {
            Cone::Zero { .. } => 0,
            Cone::Nonnegative { dim } => *dim,
            Cone::SecondOrder { .. } => 1,
            Cone::Exponential => 3,
            Cone::DualExponential => 3,
            Cone::Power { .. } => 3,
            Cone::DualPower { .. } => 3,
            Cone::GenPower { alpha, .. } => alpha.len() + 1,
            Cone::PsdTriangle { side } => *side,
        }
    }

    pub fn is_symmetric(&self) -> (r: bool)
        ensures
            r == self.spec_is_symmetric(),
    {
        match self {
            Cone::Zero { .. } => true,
            Cone::Nonnegative { .. } => true,
            Cone::SecondOrder { .. } => true,
            Cone::PsdTriangle { .. } => true,
            _ => false,
        }
    }

    /// The scaling block of this cone is diagonal.
    pub fn hs_is_diagonal(&self) -> (r: bool)
        ensures
            r == self.spec_is_polyhedral(),
    {
        self.is_polyhedral()
    }

    /// Length of the packed scaling block of this cone.
    pub fn hs_packed_len(&self) -> (r: usize)
        requires
            self.packed_fits(),
        ensures
            r == self.spec_hs_packed_len(),
    {
        let d = self.dim();
        if self.hs_is_diagonal() {
            d
        } else {
            assert((d as int) * (d as int + 1) <= usize::MAX);
            psd_tri_len(d)
        }
    }
}

/// The cone encoded by an integer kind code of the C interface: 0 zero,
/// 1 nonnegative, 2 second-order, 3 exponential, 4 power, 5 dual exponential,
/// 6 dual power, 8 PSD triangle (with `dim` as its side). Any other code is
/// returned as the error.
pub fn cone_from_code<A>(kind: i32, dim: usize, alpha: A) -> (r: Result<Cone<A>, i32>)
    ensures
        kind == 0 ==> r == Ok::<Cone<A>, i32>(Cone::Zero { dim }),
        kind == 1 ==> r == Ok::<Cone<A>, i32>(Cone::Nonnegative { dim }),
        kind == 2 ==> r == Ok::<Cone<A>, i32>(Cone::SecondOrder { dim }),
        kind == 3 ==> r == Ok::<Cone<A>, i32>(Cone::Exponential),
        kind == 4 ==> r == Ok::<Cone<A>, i32>(Cone::Power { alpha }),
        kind == 5 ==> r == Ok::<Cone<A>, i32>(Cone::DualExponential),
        kind == 6 ==> r == Ok::<Cone<A>, i32>(Cone::DualPower { alpha }),
        kind == 8 ==> r == Ok::<Cone<A>, i32>(Cone::PsdTriangle { side: dim }),
        !(0 <= kind <= 6 || kind == 8) ==> r == Err::<Cone<A>, i32>(kind),
{
    match kind {
        0 => Ok(Cone::Zero { dim }),
        1 => Ok(Cone::Nonnegative { dim }),
        2 => Ok(Cone::SecondOrder { dim }),
        3 => Ok(Cone::Exponential),
        4 => Ok(Cone::Power { alpha }),
        5 => Ok(Cone::DualExponential),
        6 => Ok(Cone::DualPower { alpha }),
        8 => Ok(Cone::PsdTriangle { side: dim }),
        k => Err(k),
    }
}

/// Sum of the dimensions of a list of cones.
pub open spec fn total_dim<A>(cones: Seq<Cone<A>>) -> int
    decreases cones.len(),
{
    if cones.len() == 0 {
        0
    } else {
        total_dim(cones.drop_last()) + cones.last().spec_dim()
    }
}

/// Sum of the barrier degrees of a list of cones.
pub open spec fn total_barrier_degree<A>(cones: Seq<Cone<A>>) -> int
    decreases cones.len(),
{
    if cones.len() == 0 {
        0
    } else {
        total_barrier_degree(cones.drop_last()) + cones.last().spec_barrier_degree()
    }
}

/// Sum of the packed scaling block lengths of a list of cones.
pub open spec fn total_packed_len<A>(cones: Seq<Cone<A>>) -> int
    decreases cones.len(),
{
    if cones.len() == 0 {
        0
    } else {
        total_packed_len(cones.drop_last()) + cones.last().spec_hs_packed_len()
    }
}

proof fn lemma_total_dim_prefix<A>(cones: Seq<Cone<A>>, i: int)
    requires
        0 <= i <= cones.len(),
    ensures
        0 <= total_dim(cones.subrange(0, i)) <= total_dim(cones),
    decreases cones.len(),
{
    if cones.len() > 0 {
        if i == cones.len() {
            assert(cones.subrange(0, i) =~= cones);
            lemma_total_dim_prefix(cones.drop_last(), i - 1);
            assert(cones.drop_last().subrange(0, i - 1) =~= cones.drop_last());
        } else {
            lemma_total_dim_prefix(cones.drop_last(), i);
            assert(cones.drop_last().subrange(0, i) =~= cones.subrange(0, i));
        }
    }
}

proof fn lemma_total_barrier_prefix<A>(cones: Seq<Cone<A>>, i: int)
    requires
        0 <= i <= cones.len(),
    ensures
        0 <= total_barrier_degree(cones.subrange(0, i)) <= total_barrier_degree(cones),
    decreases cones.len(),
{
    if cones.len() > 0 {
        if i == cones.len() {
            assert(cones.subrange(0, i) =~= cones);
            lemma_total_barrier_prefix(cones.drop_last(), i - 1);
            assert(cones.drop_last().subrange(0, i - 1) =~= cones.drop_last());
        } else {
            lemma_total_barrier_prefix(cones.drop_last(), i);
            assert(cones.drop_last().subrange(0, i) =~= cones.subrange(0, i));
        }
    }
}

proof fn lemma_total_packed_prefix<A>(cones: Seq<Cone<A>>, i: int)
    requires
        0 <= i <= cones.len(),
    ensures
        0 <= total_packed_len(cones.subrange(0, i)) <= total_packed_len(cones),
    decreases cones.len(),
{
    if cones.len() > 0 {
        assert(cones.last().spec_hs_packed_len() >= 0) by (nonlinear_arith)
            requires cones.last().spec_dim() >= 0;
        if i == cones.len() {
            assert(cones.subrange(0, i) =~= cones);
            lemma_total_packed_prefix(cones.drop_last(), i - 1);
            assert(cones.drop_last().subrange(0, i - 1) =~= cones.drop_last());
        } else {
            lemma_total_packed_prefix(cones.drop_last(), i);
            assert(cones.drop_last().subrange(0, i) =~= cones.subrange(0, i));
        }
    }
}

/// A Cartesian product of cones; cone `k` occupies rows
/// `offsets[k] .. offsets[k] + cones[k].dim()`.
#[derive(Clone, Debug)]
pub struct CompositeCone<A> {
    pub cones: Vec<Cone<A>>,
    pub offsets: Vec<usize>,
    pub dim: usize,
}

impl<A> CompositeCone<A> {
    /// Offsets are the running sums of the dimensions and `dim` is the total.
    pub open spec fn wf(&self) -> bool {
        &&& self.offsets@.len() == self.cones@.len()
        &&& forall|k: int| 0 <= k < self.cones@.len() ==> (#[trigger] self.cones@[k]).sizes_fit()
        &&& forall|k: int| 0 <= k < self.cones@.len() ==>
            #[trigger] self.offsets@[k] == total_dim(self.cones@.subrange(0, k))
        &&& self.dim == total_dim(self.cones@)
    }

    /// Lay the cones out one after the other.
    pub fn new(cones: Vec<Cone<A>>) -> (r: Self)
        requires
            forall|k: int| 0 <= k < cones@.len() ==> (#[trigger] cones@[k]).sizes_fit(),
            total_dim(cones@) <= usize::MAX,
        ensures
            r.wf(),
            r.cones@ == cones@,
    {
        let mut offsets: Vec<usize> = Vec::new();
        let mut dim: usize = 0;
        let len = cones.len();
        let mut k: usize = 0;
        while k < len
            invariant
                len == cones@.len(),
                k <= len,
                forall|k: int| 0 <= k < cones@.len() ==> (#[trigger] cones@[k]).sizes_fit(),
                total_dim(cones@) <= usize::MAX,
                offsets@.len() == k,
                dim == total_dim(cones@.subrange(0, k as int)),
                forall|i: int| 0 <= i < k ==> #[trigger] offsets@[i] == total_dim(cones@.subrange(0, i)),
            decreases len - k,
        {
            offsets.push(dim);
            let d = cones[k].dim();
            proof {
                assert(cones@.subrange(0, k + 1).drop_last() =~= cones@.subrange(0, k as int));
                lemma_total_dim_prefix(cones@, k + 1);
            }
            dim = dim + d;
            k = k + 1;
        }
        assert(cones@.subrange(0, len as int) =~= cones@);
        CompositeCone { cones, offsets, dim }
    }

    /// Every cone is polyhedral.
    pub fn is_polyhedral(&self) -> (r: bool)
        ensures
            r == forall|k: int| 0 <= k < self.cones@.len() ==> (#[trigger] self.cones@[k]).spec_is_polyhedral(),
    {
        let mut k: usize = 0;
        while k < self.cones.len()
            invariant
                k <= self.cones@.len(),
                forall|i: int| 0 <= i < k ==> (#[trigger] self.cones@[i]).spec_is_polyhedral(),
            decreases self.cones@.len() - k,
        {
            if !self.cones[k].is_polyhedral() {
                return false;
            }
            k = k + 1;
        }
        true
    }

    /// Every cone is symmetric.
    pub fn is_symmetric(&self) -> (r: bool)
        ensures
            r == forall|k: int| 0 <= k < self.cones@.len() ==> (#[trigger] self.cones@[k]).spec_is_symmetric(),
    {
        let mut k: usize = 0;
        while k < self.cones.len()
            invariant
                k <= self.cones@.len(),
                forall|i: int| 0 <= i < k ==> (#[trigger] self.cones@[i]).spec_is_symmetric(),
            decreases self.cones@.len() - k,
        {
            if !self.cones[k].is_symmetric() {
                return false;
            }
            k = k + 1;
        }
        true
    }

    /// Sum of the barrier degrees.
    pub fn barrier_degree(&self) -> (r: usize)
        requires
            forall|k: int| 0 <= k < self.cones@.len() ==> (#[trigger] self.cones@[k]).sizes_fit(),
            total_barrier_degree(self.cones@) <= usize::MAX,
        ensures
            r == total_barrier_degree(self.cones@),
    {
        let mut s: usize = 0;
        let len = self.cones.len();
        let mut k: usize = 0;
        while k < len
            invariant
                len == self.cones@.len(),
                k <= len,
                forall|k: int| 0 <= k < self.cones@.len() ==> (#[trigger] self.cones@[k]).sizes_fit(),
                total_barrier_degree(self.cones@) <= usize::MAX,
                s == total_barrier_degree(self.cones@.subrange(0, k as int)),
            decreases len - k,
        {
            let d = self.cones[k].barrier_degree();
            proof {
                assert(self.cones@.subrange(0, k + 1).drop_last() =~= self.cones@.subrange(0, k as int));
                lemma_total_barrier_prefix(self.cones@, k + 1);
            }
            s = s + d;
            k = k + 1;
        }
        assert(self.cones@.subrange(0, len as int) =~= self.cones@);
        s
    }

    /// Total length of the packed scaling blocks.
    pub fn hs_packed_len(&self) -> (r: usize)
        requires
            forall|k: int| 0 <= k < self.cones@.len() ==> (#[trigger] self.cones@[k]).packed_fits(),
            total_packed_len(self.cones@) <= usize::MAX,
        ensures
            r == total_packed_len(self.cones@),
    {
        let mut s: usize = 0;
        let len = self.cones.len();
        let mut k: usize = 0;
        while k < len
            invariant
                len == self.cones@.len(),
                k <= len,
                forall|k: int| 0 <= k < self.cones@.len() ==> (#[trigger] self.cones@[k]).packed_fits(),
                total_packed_len(self.cones@) <= usize::MAX,
                s == total_packed_len(self.cones@.subrange(0, k as int)),
            decreases len - k,
        {
            let d = self.cones[k].hs_packed_len();
            proof {
                assert(self.cones@.subrange(0, k + 1).drop_last() =~= self.cones@.subrange(0, k as int));
                lemma_total_packed_prefix(self.cones@, k + 1);
            }
            s = s + d;
            k = k + 1;
        }
        assert(self.cones@.subrange(0, len as int) =~= self.cones@);
        s
    }
}


/// The sum of the dimensions of the first `k + 1` cones adds cone `k` to the first `k`.
proof fn lemma_total_dim_step<A>(cones: Seq<Cone<A>>, k: int)
    requires
        0 <= k < cones.len(),
    ensures
        total_dim(cones.subrange(0, k + 1)) == total_dim(cones.subrange(0, k)) + cones[k].spec_dim(),
{
    assert(cones.subrange(0, k + 1).drop_last() =~= cones.subrange(0, k));
}

/// In a well-formed product, cone `k1` ends before any later cone `k2` starts,
/// and every cone ends within the total dimension.
pub proof fn lemma_cones_disjoint<A>(cc: &CompositeCone<A>, k1: int, k2: int)
    requires
        cc.wf(),
        0 <= k1 < cc.cones@.len(),
        k1 < k2 <= cc.cones@.len(),
    ensures
        0 <= cc.offsets@[k1],
        cc.offsets@[k1] + cc.cones@[k1].spec_dim() <= cc.dim,
        k2 < cc.cones@.len() ==> cc.offsets@[k1] + cc.cones@[k1].spec_dim() <= cc.offsets@[k2],
{
    let cs = cc.cones@;
    lemma_total_dim_step(cs, k1);
    lemma_total_dim_prefix(cs, k1 + 1);
    if k2 < cs.len() {
        lemma_total_dim_prefix(cs.subrange(0, k2), k1 + 1);
        assert(cs.subrange(0, k2).subrange(0, k1 + 1) =~= cs.subrange(0, k1 + 1));
    }
}

/// The dimension of each kind of cone: the given dimension for the zero,
/// nonnegative and second-order cones, 3 for the exponential and power cones
/// and their duals, the length of the `x` part plus the length of the `z` part
/// for a generalized power cone, and the packed triangle `side (side + 1) / 2`
/// for a PSD cone.
pub proof fn lemma_cone_dim<A>(c: Cone<A>)
    ensures
        c matches Cone::Zero { dim } ==> c.spec_dim() == dim,
        c matches Cone::Nonnegative { dim } ==> c.spec_dim() == dim,
        c matches Cone::SecondOrder { dim } ==> c.spec_dim() == dim,
        c is Exponential || c is DualExponential || c is Power || c is DualPower ==> c.spec_dim() == 3,
        c matches Cone::GenPower { alpha, n_z } ==> c.spec_dim() == alpha@.len() + n_z,
        c matches Cone::PsdTriangle { side } ==> 2 * c.spec_dim() == side * (side + 1),
{
    if let Cone::PsdTriangle { side } = c {
        lemma_consecutive_even(side as int);
    }
}

/// The product of two consecutive naturals is even.
proof fn lemma_consecutive_even(s: int)
    requires
        s >= 0,
    ensures
        (s * (s + 1)) % 2 == 0,
    decreases s,
{
    if s > 0 {
        let t = s - 1;
        lemma_consecutive_even(t);
        let x = s * (s + 1);
        let y = t * (t + 1);
        assert(x == y + 2 * s) by (nonlinear_arith)
            requires x == s * (s + 1), y == t * (t + 1), t == s - 1;
        assert(y % 2 == 0);
        assert((y + 2 * s) % 2 == 0);
        assert(x % 2 == 0);
    } else {
        assert(s * (s + 1) == 0) by (nonlinear_arith)
            requires s == 0;
    }
}

/// The barrier degree of each kind of cone: 0 for the zero cone, the
/// dimension for the nonnegative cone, 1 for a second-order cone, 3 for the
/// exponential and power cones and their duals, `alpha.len() + 1` for a
/// generalized power cone whatever the length of its `z` part, and the side
/// for a PSD cone.
pub proof fn lemma_cone_barrier_degree<A>(c: Cone<A>)
    ensures
        c is Zero ==> c.spec_barrier_degree() == 0,
        c matches Cone::Nonnegative { dim } ==> c.spec_barrier_degree() == dim,
        c is SecondOrder ==> c.spec_barrier_degree() == 1,
        c is Exponential || c is DualExponential || c is Power || c is DualPower ==> c.spec_barrier_degree() == 3,
        c matches Cone::GenPower { alpha, n_z } ==> c.spec_barrier_degree() == alpha@.len() + 1,
        c matches Cone::PsdTriangle { side } ==> c.spec_barrier_degree() == side,
{
}

/// A product of cones lays its cones out one after the other: the first
/// starts at row 0, each next one where the previous one ends, and the
/// product's dimension is where the last one ends.
pub proof fn lemma_product_layout<A>(cc: &CompositeCone<A>)
    requires
        cc.wf(),
    ensures
        cc.cones@.len() > 0 ==> cc.offsets@[0] == 0,
        forall|k: int| 0 <= k < cc.cones@.len() - 1 ==>
            #[trigger] cc.offsets@[k + 1] == cc.offsets@[k] + cc.cones@[k].spec_dim(),
        cc.cones@.len() > 0 ==> cc.dim == cc.offsets@[cc.cones@.len() - 1] + cc.cones@[cc.cones@.len() - 1].spec_dim(),
        cc.cones@.len() == 0 ==> cc.dim == 0,
{
    let cs = cc.cones@;
    if cs.len() > 0 {
        assert(cs.subrange(0, 0) =~= Seq::<Cone<A>>::empty());
        assert(cs.subrange(0, cs.len() - 1) =~= cs.drop_last());
    }
    assert forall|k: int| 0 <= k < cs.len() - 1 implies
        #[trigger] cc.offsets@[k + 1] == cc.offsets@[k] + cs[k].spec_dim() by {
        assert(cs.subrange(0, k + 1).drop_last() =~= cs.subrange(0, k));
        assert(cs.subrange(0, k + 1).last() == cs[k]);
    }
}

} // verus!
