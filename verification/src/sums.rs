//! Sums of mass numerators, and the lemmas the filter's proofs lean on.

use vstd::prelude::*;

verus! {

/// Sum of the elements of `s` at indices `[lo, hi)`, as a mathematical
/// integer (an empty or inverted range sums to zero).
pub open spec fn mass_range(s: Seq<u64>, lo: int, hi: int) -> int
    decreases hi - lo,
{
    if hi <= lo {
        0
    } else {
        mass_range(s, lo, hi - 1) + s[hi - 1]
    }
}

/// Sum of all elements of `s`.
pub open spec fn mass_total(s: Seq<u64>) -> int {
    mass_range(s, 0, s.len() as int)
}

/// A sum of `u64` masses is never negative.
pub proof fn lemma_mass_range_nonneg(s: Seq<u64>, lo: int, hi: int)
    ensures
        0 <= mass_range(s, lo, hi),
    decreases hi - lo,
{
    if hi > lo {
        lemma_mass_range_nonneg(s, lo, hi - 1);
    }
}

/// A sum over `[lo, hi)` splits at any midpoint.
pub proof fn lemma_mass_range_split(s: Seq<u64>, lo: int, mid: int, hi: int)
    requires
        lo <= mid <= hi,
    ensures
        mass_range(s, lo, hi) == mass_range(s, lo, mid) + mass_range(s, mid, hi),
    decreases hi - mid,
{
    if hi > mid {
        lemma_mass_range_split(s, lo, mid, hi - 1);
    }
}

/// Two sequences that agree on `[lo, hi)` have the same sum there.
pub proof fn lemma_mass_range_agree(s: Seq<u64>, t: Seq<u64>, lo: int, hi: int)
    requires
        forall|i: int| lo <= i < hi ==> s[i] == t[i],
    ensures
        mass_range(s, lo, hi) == mass_range(t, lo, hi),
    decreases hi - lo,
{
    if hi > lo {
        lemma_mass_range_agree(s, t, lo, hi - 1);
    }
}

/// A sequence that is elementwise `c` times another sums to `c` times the
/// other's sum.
pub proof fn lemma_mass_range_scale(p: Seq<u64>, q: Seq<u64>, c: int, lo: int, hi: int)
    requires
        forall|i: int| lo <= i < hi ==> q[i] == c * p[i],
    ensures
        mass_range(q, lo, hi) == c * mass_range(p, lo, hi),
    decreases hi - lo,
{
    if hi > lo {
        lemma_mass_range_scale(p, q, c, lo, hi - 1);
        assert(c * (mass_range(p, lo, hi - 1) + p[hi - 1]) == c * mass_range(p, lo, hi - 1) + c
            * p[hi - 1]) by (nonlinear_arith);
    }
}

} // verus!
