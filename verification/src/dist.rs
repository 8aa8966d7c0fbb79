//! The filter's data model: exact scalar masses and N-dimensional
//! distributions of masses.

use vstd::prelude::*;

use crate::sums::mass_total;

verus! {

/// Shape mismatch between operands, or a translation offset that does not
/// fit the trailing axis. Fatal to the call; the caller must supply
/// well-formed inputs.
#[derive(Clone, Copy, Debug, PartialEq, Eq, Structural)]
pub struct DimensionError;

/// Normalization was attempted on a zero-sum distribution (a modeling bug or
/// a fully excluded hypothesis). Surfaced explicitly, never masked by
/// producing an ill-defined output.
#[derive(Clone, Copy, Debug, PartialEq, Eq, Structural)]
pub struct DegenerateDistributionError;

/// An exact non-negative scalar: the rational `num / den`.
#[derive(Clone, Copy, Debug, PartialEq, Eq, Structural)]
pub struct Mass {
    pub num: u64,
    pub den: u64,
}

impl Mass {
    /// A scalar mass is meaningful only with a positive denominator.
    pub open spec fn wf(self) -> bool {
        self.den >= 1
    }
}

/// Product of all extents of a shape: the number of cells of an array of
/// that shape (the empty shape describes a single scalar cell).
pub open spec fn prod_of(shape: Seq<usize>) -> int
    decreases shape.len(),
{
    if shape.len() == 0 {
        1
    } else {
        prod_of(shape.drop_last()) * shape.last()
    }
}

/// A product of extents is never negative.
pub proof fn lemma_prod_nonneg(s: Seq<usize>)
    ensures
        0 <= prod_of(s),
    decreases s.len(),
{
    if s.len() > 0 {
        lemma_prod_nonneg(s.drop_last());
        assert(prod_of(s.drop_last()) * s.last() >= 0) by (nonlinear_arith)
            requires
                prod_of(s.drop_last()) >= 0,
                s.last() >= 0,
        ;
    }
}

/// A shape with a zero extent describes an array with no cells.
pub proof fn lemma_prod_with_zero_extent(s: Seq<usize>, z: int)
    requires
        0 <= z < s.len(),
        s[z] == 0,
    ensures
        prod_of(s) == 0,
    decreases s.len(),
{
    if z == s.len() - 1 {
        assert(prod_of(s) == prod_of(s.drop_last()) * 0);
        assert(prod_of(s.drop_last()) * 0 == 0) by (nonlinear_arith);
    } else {
        lemma_prod_with_zero_extent(s.drop_last(), z);
        assert(0 * s.last() == 0) by (nonlinear_arith);
    }
}

/// A product over all extents at least one is at least one.
pub proof fn lemma_prod_all_ge_one(s: Seq<usize>)
    requires
        forall|i: int| 0 <= i < s.len() ==> s[i] >= 1,
    ensures
        prod_of(s) >= 1,
    decreases s.len(),
{
    if s.len() > 0 {
        lemma_prod_all_ge_one(s.drop_last());
        assert(prod_of(s.drop_last()) * s.last() >= 1) by (nonlinear_arith)
            requires
                prod_of(s.drop_last()) >= 1,
                s.last() >= 1,
        ;
    }
}

/// Extending a prefix of a shape by one extent multiplies its cell count by
/// that extent.
pub proof fn lemma_prod_prefix_extend(s: Seq<usize>, a: int)
    requires
        0 <= a < s.len(),
    ensures
        prod_of(s.subrange(0, a + 1)) == prod_of(s.subrange(0, a)) * s[a],
{
    assert(s.subrange(0, a + 1).drop_last() =~= s.subrange(0, a));
}

/// A cell count splits at any axis: the product over all extents is the
/// product over a prefix times the product over the matching suffix.
pub proof fn lemma_prod_split(s: Seq<usize>, a: int)
    requires
        0 <= a <= s.len(),
    ensures
        prod_of(s) == prod_of(s.subrange(0, a)) * prod_of(s.subrange(a, s.len() as int)),
    decreases s.len(),
{
    let n = s.len() as int;
    if a == n {
        assert(s.subrange(0, a) =~= s);
        assert(s.subrange(a, n).len() == 0);
    } else {
        let dl = s.drop_last();
        lemma_prod_split(dl, a);
        assert(dl.subrange(0, a) =~= s.subrange(0, a));
        assert(dl.subrange(a, n - 1) =~= s.subrange(a, n - 1));
        assert(s.subrange(a, n).drop_last() =~= s.subrange(a, n - 1));
        assert(prod_of(s.subrange(a, n)) == prod_of(s.subrange(a, n - 1)) * s.last());
        assert((prod_of(s.subrange(0, a)) * prod_of(s.subrange(a, n - 1))) * s.last() == prod_of(
            s.subrange(0, a),
        ) * (prod_of(s.subrange(a, n - 1)) * s.last())) by (nonlinear_arith);
    }
}

/// A shape no larger than another in every extent has no more cells.
pub proof fn lemma_prod_mono(t: Seq<usize>, s: Seq<usize>)
    requires
        t.len() == s.len(),
        forall|i: int| 0 <= i < t.len() ==> t[i] <= s[i],
    ensures
        prod_of(t) <= prod_of(s),
    decreases t.len(),
{
    if t.len() > 0 {
        lemma_prod_mono(t.drop_last(), s.drop_last());
        lemma_prod_nonneg(t.drop_last());
        assert(prod_of(t.drop_last()) * t.last() <= prod_of(s.drop_last()) * s.last())
            by (nonlinear_arith)
            requires
                0 <= prod_of(t.drop_last()) <= prod_of(s.drop_last()),
                0 <= t.last() <= s.last(),
        ;
    }
}

/// A shape whose every extent is one describes a single cell.
pub proof fn lemma_prod_of_ones(s: Seq<usize>)
    requires
        forall|i: int| 0 <= i < s.len() ==> s[i] == 1,
    ensures
        prod_of(s) == 1,
    decreases s.len(),
{
    if s.len() > 0 {
        lemma_prod_of_ones(s.drop_last());
    }
}

/// An N-dimensional array of non-negative masses in row-major order: the
/// cell at flat index `i` carries the exact value `num[i] / den`.
///
/// Distributions, motion kernels and likelihoods all share this
/// representation; a distribution is normalized exactly when its numerators
/// sum to its denominator.
pub struct Distribution {
    pub shape: Vec<usize>,
    pub num: Vec<u64>,
    pub den: u64,
}

impl Distribution {
    /// Well-formedness: a positive denominator and one numerator per cell.
    pub open spec fn wf(self) -> bool {
        self.den >= 1 && self.num@.len() == prod_of(self.shape@)
    }

    /// The exact total mass is one: the numerators sum to the denominator.
    pub open spec fn is_normalized(self) -> bool {
        mass_total(self.num@) == self.den
    }

    /// Builds a distribution after checking well-formedness: `den` must be
    /// positive and `num` must hold exactly one value per cell of `shape`.
    pub fn new(shape: Vec<usize>, num: Vec<u64>, den: u64) -> (r: Result<
        Distribution,
        DimensionError,
    >)
        ensures
            r is Ok <==> den >= 1 && num@.len() == prod_of(shape@),
            r matches Ok(d) ==> d.shape@ == shape@ && d.num@ == num@ && d.den == den && d.wf(),
    {
        if den == 0 {
            return Err(DimensionError);
        }
        let n_cells = num.len();
        match cell_count(&shape) {
            Some(cells) => {
                if n_cells == cells {
                    Ok(Distribution { shape, num, den })
                } else {
                    Err(DimensionError)
                }
            },
            None => {
                // More cells than the address space holds, so `num` cannot
                // match the shape.
                Err(DimensionError)
            },
        }
    }
}

/// Two mass arrays hold the same exact values cell for cell (their
/// numerators may differ by a common factor).
pub open spec fn same_values(a: Distribution, b: Distribution) -> bool {
    &&& a.shape@ == b.shape@
    &&& a.num@.len() == b.num@.len()
    &&& forall|i: int|
        0 <= i < a.num@.len() ==> #[trigger] (a.num@[i] * b.den) == b.num@[i] * a.den
}

/// The number of cells of an array of shape `shape`, or `None` where that
/// count exceeds `usize::MAX` (and so cannot be the length of any vector).
pub fn cell_count(shape: &Vec<usize>) -> (r: Option<usize>)
    ensures
        r matches Some(n) ==> n == prod_of(shape@),
        r is None ==> prod_of(shape@) > usize::MAX,
{
    let n = shape.len();
    let mut a: usize = 0;
    while a < n
        invariant
            n == shape@.len(),
            a <= n,
            forall|i: int| 0 <= i < a ==> shape@[i] >= 1,
        decreases n - a,
    {
        if shape[a] == 0 {
            proof {
                lemma_prod_with_zero_extent(shape@, a as int);
            }
            return Some(0);
        }
        a += 1;
    }
    let mut cells: usize = 1;
    let mut a: usize = 0;
    while a < n
        invariant
            n == shape@.len(),
            a <= n,
            forall|i: int| 0 <= i < n ==> shape@[i] >= 1,
            cells == prod_of(shape@.subrange(0, a as int)),
        decreases n - a,
    {
        proof {
            lemma_prod_prefix_extend(shape@, a as int);
        }
        match cells.checked_mul(shape[a]) {
            Some(c) => {
                cells = c;
            },
            None => {
                proof {
                    lemma_prod_split(shape@, a + 1);
                    lemma_prod_all_ge_one(shape@.subrange(a + 1, n as int));
                    assert(prod_of(shape@) > usize::MAX) by (nonlinear_arith)
                        requires
                            prod_of(shape@) == prod_of(shape@.subrange(0, a + 1)) * prod_of(
                                shape@.subrange(a + 1, n as int),
                            ),
                            prod_of(shape@.subrange(0, a + 1)) > usize::MAX,
                            prod_of(shape@.subrange(a + 1, n as int)) >= 1,
                    ;
                }
                return None;
            },
        }
        a += 1;
    }
    proof {
        assert(shape@.subrange(0, n as int) =~= shape@);
    }
    Some(cells)
}

} // verus!
