//! The conic problem `min 1/2 x'Px + q'x  s.t.  Ax + s = b, s in K` and the
//! checks the solver's workspace makes on its data.

use vstd::prelude::*;
use crate::csc::CscMatrix;
use crate::cones::{Cone, CompositeCone, lemma_cones_disjoint};

verus! {

/// A quadratic cone program with data of scalar type `T`.
#[derive(Clone, Debug)]
pub struct Qcp<T, A> {
    pub p: CscMatrix<T>,
    pub q: Vec<T>,
    pub a: CscMatrix<T>,
    pub b: Vec<T>,
    pub cones: CompositeCone<A>,
}

/// The first dimension mismatch of a problem, if any.
pub open spec fn qcp_error<T, A>(qcp: &Qcp<T, A>) -> Option<Seq<char>> {
    if qcp.p.m != qcp.p.n {
        Some("P must be square"@)
    } else if qcp.q@.len() != qcp.p.n {
        Some("q dimension"@)
    } else if qcp.a.n != qcp.p.n {
        Some("A column dimension"@)
    } else if qcp.a.m != qcp.b@.len() {
        Some("b dimension"@)
    } else if qcp.cones.dim != qcp.a.m {
        Some("cone dimension != m"@)
    } else {
        None
    }
}

impl<T, A> Qcp<T, A> {
    /// Checks that `P` is `n x n`, `q` has length `n`, `A` is `m x n`, `b`
    /// has length `m` and the cones cover `m` rows, reporting the first
    /// mismatch.
    pub fn validate(&self) -> (r: Result<(), String>)
        ensures
            r is Ok <==> qcp_error(self) is None,
            r matches Err(e) ==> qcp_error(self) == Some(e@),
    {
        if self.p.m != self.p.n {
            return Err("P must be square".to_owned());
        }
        if self.q.len() != self.p.n {
            return Err("q dimension".to_owned());
        }
        if self.a.n != self.p.n {
            return Err("A column dimension".to_owned());
        }
        if self.a.m != self.b.len() {
            return Err("b dimension".to_owned());
        }
        if self.cones.dim != self.a.m {
            return Err("cone dimension != m".to_owned());
        }
        Ok(())
    }
}

/// Row `i` belongs to a zero (equality) cone of `cones`.
pub open spec fn in_zero_cone<A>(cones: &CompositeCone<A>, i: int) -> bool {
    exists|k: int| 0 <= k < cones.cones@.len() && (#[trigger] cones.cones@[k]) is Zero
        && cones.offsets@[k] <= i < cones.offsets@[k] + cones.cones@[k].spec_dim()
}

/// For every row of the product cone, whether it belongs to a zero cone;
/// these rows get a larger step parameter than the others.
pub fn zero_cone_rows<A>(cones: &CompositeCone<A>) -> (r: Vec<bool>)
    requires
        cones.wf(),
    ensures
        r@.len() == cones.dim,
        forall|i: int| 0 <= i < cones.dim ==> #[trigger] r@[i] == in_zero_cone(cones, i),
{
    let mut r: Vec<bool> = Vec::new();
    let mut i: usize = 0;
    while i < cones.dim
        invariant
            i <= cones.dim,
            r@.len() == i,
            forall|ii: int| 0 <= ii < i ==> !(#[trigger] r@[ii]),
        decreases cones.dim - i,
    {
        r.push(false);
        i = i + 1;
    }
    let nc = cones.cones.len();
    let mut k: usize = 0;
    while k < nc
        invariant
            cones.wf(),
            nc == cones.cones@.len(),
            k <= nc,
            r@.len() == cones.dim,
            forall|i: int| 0 <= i < cones.dim ==> #[trigger] r@[i] == exists|kk: int|
                0 <= kk < k && (#[trigger] cones.cones@[kk]) is Zero
                && cones.offsets@[kk] <= i < cones.offsets@[kk] + cones.cones@[kk].spec_dim(),
        decreases nc - k,
    {
        if let Cone::Zero { dim } = &cones.cones[k] {
            let off = cones.offsets[k];
            proof {
                lemma_cones_disjoint(cones, k as int, nc as int);
            }
            let ghost r0 = r@;
            let mut t: usize = 0;
            while t < *dim
                invariant
                    cones.wf(),
                    nc == cones.cones@.len(),
                    k < nc,
                    cones.cones@[k as int] is Zero,
                    cones.cones@[k as int].spec_dim() == *dim,
                    off == cones.offsets@[k as int],
                    off + *dim <= cones.dim,
                    t <= *dim,
                    r@.len() == cones.dim,
                    forall|i: int| 0 <= i < cones.dim ==> #[trigger] r@[i] == (r0[i] || (off <= i < off + t)),
                decreases *dim - t,
            {
                r.set(off + t, true);
                t = t + 1;
            }
            proof {
                assert forall|i: int| 0 <= i < cones.dim implies #[trigger] r@[i] == exists|kk: int|
                    0 <= kk < k + 1 && (#[trigger] cones.cones@[kk]) is Zero
                    && cones.offsets@[kk] <= i < cones.offsets@[kk] + cones.cones@[kk].spec_dim() by {
                    if off <= i < off + *dim {
                        assert(cones.cones@[k as int] is Zero);
                    }
                }
            }
        }
        k = k + 1;
    }
    r
}

/// A problem passes validation exactly when its dimensions agree: `P` is
/// square of order `n`, `q` has length `n`, `A` has `n` columns, `b` has one
/// entry per row of `A`, and the cones cover the rows of `A`.
pub proof fn lemma_validate_consistent<T, A>(qcp: &Qcp<T, A>)
    ensures
        qcp_error(qcp) is None <==> (qcp.p.m == qcp.p.n && qcp.q@.len() == qcp.p.n && qcp.a.n == qcp.p.n
            && qcp.b@.len() == qcp.a.m && qcp.cones.dim == qcp.a.m),
{
}

} // verus!
