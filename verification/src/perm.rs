//! Permutation vectors: `perm[k]` is the old index placed at new position `k`.

use vstd::prelude::*;
use vstd::set_lib::{set_int_range, lemma_int_range, lemma_subset_equality};

verus! {

/// `perm` lists each of `0 .. n` exactly once.
pub open spec fn is_permutation(perm: Seq<usize>, n: int) -> bool {
    &&& perm.len() == n
    &&& forall|k: int| 0 <= k < n ==> #[trigger] perm[k] < n
    &&& forall|a: int, b: int| #![trigger perm[a], perm[b]]
        0 <= a < n && 0 <= b < n && a != b ==> perm[a] != perm[b]
}

/// `pinv` undoes `perm`: `pinv[perm[k]] == k` and `perm[pinv[i]] == i`.
pub open spec fn is_inverse(perm: Seq<usize>, pinv: Seq<usize>, n: int) -> bool {
    &&& pinv.len() == n
    &&& forall|i: int| 0 <= i < n ==> #[trigger] pinv[i] < n
    &&& forall|k: int| 0 <= k < n ==> #[trigger] pinv[perm[k] as int] == k
    &&& forall|i: int| 0 <= i < n ==> #[trigger] perm[pinv[i] as int] == i
}

/// A permutation of `0 .. n` reaches every index below `n`.
pub proof fn lemma_permutation_onto(perm: Seq<usize>, n: int, i: int)
    requires
        is_permutation(perm, n),
        0 <= i < n,
    ensures
        exists|k: int| 0 <= k < n && perm[k] == i,
{
    let s = Seq::new(n as nat, |k: int| perm[k] as int);
    assert(s.no_duplicates()) by {
        assert forall|a: int, b: int| 0 <= a < s.len() && 0 <= b < s.len() && a != b implies s[a] != s[b] by {
            assert(perm[a] != perm[b]);
        }
    }
    s.unique_seq_to_set();
    lemma_int_range(0, n);
    assert(s.to_set().subset_of(set_int_range(0, n))) by {
        assert forall|v: int| s.to_set().contains(v) implies set_int_range(0, n).contains(v) by {
            let k = choose|k: int| 0 <= k < s.len() && s[k] == v;
            assert(perm[k] < n);
        }
    }
    vstd::seq_lib::seq_to_set_is_finite(s);
    lemma_subset_equality(s.to_set(), set_int_range(0, n));
    assert(set_int_range(0, n).contains(i));
    assert(s.to_set().contains(i));
    let k = choose|k: int| 0 <= k < s.len() && s[k] == i;
    assert(perm[k] == i);
}

/// The inverse of a permutation.
pub fn invert_permutation(perm: &[usize]) -> (pinv: Vec<usize>)
    requires
        is_permutation(perm@, perm@.len() as int),
    ensures
        is_inverse(perm@, pinv@, perm@.len() as int),
{
    let n = perm.len();
    let mut pinv: Vec<usize> = vec![0usize; n];
    for k in 0..n
        invariant
            n == perm@.len(),
            is_permutation(perm@, n as int),
            pinv@.len() == n,
            forall|i: int| 0 <= i < n ==> #[trigger] pinv@[i] < n,
            forall|kk: int| 0 <= kk < k ==> #[trigger] pinv@[perm@[kk] as int] == kk,
    {
        let i = perm[k];
        pinv.set(i, k);
        assert forall|kk: int| 0 <= kk < k + 1 implies #[trigger] pinv@[perm@[kk] as int] == kk by {
            if kk < k {
                assert(perm@[kk] != perm@[k as int]);
            }
        }
    }
    assert forall|i: int| 0 <= i < n implies #[trigger] perm@[pinv@[i] as int] == i by {
        lemma_permutation_onto(perm@, n as int, i);
        let k = choose|k: int| 0 <= k < n && perm@[k] == i;
        assert(pinv@[perm@[k] as int] == k);
    }
    pinv
}

/// `y` holds `x` permuted by `perm` in its first `perm.len()` places.
pub open spec fn permuted<T>(perm: Seq<usize>, x: Seq<T>, y: Seq<T>) -> bool {
    forall|k: int| 0 <= k < perm.len() ==> #[trigger] y[k] == x[perm[k] as int]
}

/// `x1` is `x0` with `y[k]` written to place `perm[k]` for `k` in increasing
/// order: a place gets the last value written to it, and places that are
/// never written keep their value.
pub open spec fn inv_permuted<T>(perm: Seq<usize>, y: Seq<T>, x0: Seq<T>, x1: Seq<T>) -> bool {
    &&& forall|k: int| 0 <= k < perm.len()
        && (forall|k2: int| k < k2 < perm.len() ==> perm[k2] != perm[k])
        ==> #[trigger] x1[perm[k] as int] == y[k]
    &&& forall|i: int| 0 <= i < x0.len()
        && (forall|k: int| 0 <= k < perm.len() ==> perm[k] != i)
        ==> #[trigger] x1[i] == x0[i]
}

/// `inv_permute` undoes `permute`: for a permutation, `P' (P x) = x`.
pub proof fn lemma_permute_round_trip<T>(perm: Seq<usize>, x: Seq<T>, y: Seq<T>, x0: Seq<T>, x1: Seq<T>)
    requires
        is_permutation(perm, x.len() as int),
        x0.len() == x.len(),
        x1.len() == x.len(),
        permuted(perm, x, y),
        inv_permuted(perm, y, x0, x1),
    ensures
        x1 == x,
{
    let n = x.len() as int;
    assert forall|i: int| 0 <= i < n implies x1[i] == x[i] by {
        lemma_permutation_onto(perm, n, i);
        let k = choose|k: int| 0 <= k < n && perm[k] == i;
        assert forall|k2: int| k < k2 < perm.len() implies perm[k2] != perm[k] by {
            assert(perm[k] != perm[k2]);
        }
        assert(x1[perm[k] as int] == y[k]);
    }
    assert(x1 =~= x);
}

/// `permute` undoes `inv_permute`: for a permutation, `P (P' y) = y`.
pub proof fn lemma_inv_permute_round_trip<T>(perm: Seq<usize>, y: Seq<T>, x0: Seq<T>, x1: Seq<T>, y1: Seq<T>)
    requires
        is_permutation(perm, x0.len() as int),
        y.len() == perm.len(),
        x1.len() == x0.len(),
        y1.len() == perm.len(),
        inv_permuted(perm, y, x0, x1),
        permuted(perm, x1, y1),
    ensures
        y1 == y,
{
    assert forall|k: int| 0 <= k < perm.len() implies y1[k] == y[k] by {
        assert forall|k2: int| k < k2 < perm.len() implies perm[k2] != perm[k] by {
            assert(perm[k] != perm[k2]);
        }
        assert(x1[perm[k] as int] == y[k]);
    }
    assert(y1 =~= y);
}

/// `y[k] = x[perm[k]]` for every `k < perm.len()`.
pub fn permute<T: Copy>(perm: &[usize], x: &[T], y: &mut [T])
    requires
        forall|k: int| 0 <= k < perm@.len() ==> #[trigger] perm@[k] < x@.len(),
        perm@.len() <= old(y)@.len(),
    ensures
        final(y)@.len() == old(y)@.len(),
        permuted(perm@, x@, final(y)@),
        forall|k: int| perm@.len() <= k < old(y)@.len() ==> #[trigger] final(y)@[k] == old(y)@[k],
{
    let len = perm.len();
    let mut k: usize = 0;
    while k < len
        invariant
            len == perm@.len(),
            k <= len,
            forall|k: int| 0 <= k < perm@.len() ==> #[trigger] perm@[k] < x@.len(),
            y@.len() == old(y)@.len(),
            len <= y@.len(),
            forall|kk: int| 0 <= kk < k ==> #[trigger] y@[kk] == x@[perm@[kk] as int],
            forall|kk: int| k <= kk < old(y)@.len() ==> #[trigger] y@[kk] == old(y)@[kk],
        decreases len - k,
    {
        y[k] = x[perm[k]];
        k = k + 1;
    }
}

/// `x[perm[k]] = y[k]` for every `k < perm.len()`, in increasing `k`.
pub fn inv_permute<T: Copy>(perm: &[usize], y: &[T], x: &mut [T])
    requires
        forall|k: int| 0 <= k < perm@.len() ==> #[trigger] perm@[k] < old(x)@.len(),
        perm@.len() <= y@.len(),
    ensures
        final(x)@.len() == old(x)@.len(),
        inv_permuted(perm@, y@, old(x)@, final(x)@),
{
    let len = perm.len();
    let mut k: usize = 0;
    while k < len
        invariant
            len == perm@.len(),
            k <= len,
            forall|k: int| 0 <= k < perm@.len() ==> #[trigger] perm@[k] < old(x)@.len(),
            perm@.len() <= y@.len(),
            x@.len() == old(x)@.len(),
            forall|kk: int| 0 <= kk < k
                && (forall|k2: int| kk < k2 < k ==> perm@[k2] != perm@[kk])
                ==> #[trigger] x@[perm@[kk] as int] == y@[kk],
            forall|i: int| 0 <= i < old(x)@.len()
                && (forall|kk: int| 0 <= kk < k ==> perm@[kk] != i)
                ==> #[trigger] x@[i] == old(x)@[i],
        decreases len - k,
    {
        x[perm[k]] = y[k];
        k = k + 1;
    }
}

} // verus!
