//! Convolution of a distribution with a motion kernel: an exact
//! "valid"-mode operator with unit stride, no padding, unit dilation and a
//! single group, stated and proved over row-major index arithmetic.

use vstd::prelude::*;

use crate::dist::{
    lemma_prod_all_ge_one, lemma_prod_mono, lemma_prod_nonneg, lemma_prod_of_ones, lemma_prod_split,
    prod_of, Distribution,
};
use vstd::arithmetic::div_mod::lemma_fundamental_div_mod;

verus! {

/// Failure of the convolution backend: the plan could not be built from the
/// kernel, or the plan could not be executed against the feature map.
#[derive(Clone, Copy, Debug, PartialEq, Eq, Structural)]
pub enum ConvolutionError {
    BuildFailed,
    ComputeFailed,
}

/// A `usize` multi-index, widened to mathematical integers.
pub open spec fn seq_int(s: Seq<usize>) -> Seq<int> {
    Seq::new(s.len(), |i: int| s[i] as int)
}

/// Componentwise sum of two multi-indices.
pub open spec fn mi_add(x: Seq<int>, y: Seq<int>) -> Seq<int> {
    Seq::new(x.len(), |i: int| x[i] + y[i])
}

/// A multi-index that addresses a cell of an array of shape `shape`.
pub open spec fn mi_in_range(shape: Seq<usize>, mi: Seq<int>) -> bool {
    &&& mi.len() == shape.len()
    &&& forall|a: int| 0 <= a < shape.len() ==> 0 <= #[trigger] mi[a] < shape[a]
}

/// Row-major flat index of the cell at multi-index `mi` of an array of
/// shape `shape`.
pub open spec fn flatten_idx(shape: Seq<usize>, mi: Seq<int>) -> int
    decreases shape.len(),
{
    if shape.len() == 0 {
        0
    } else {
        flatten_idx(shape.drop_last(), mi.drop_last()) * shape.last() + mi.last()
    }
}

/// Multi-index of the cell at row-major flat index `o` of an array of
/// shape `shape`.
pub open spec fn unflatten_idx(shape: Seq<usize>, o: int) -> Seq<int>
    decreases shape.len(),
{
    if shape.len() == 0 {
        Seq::<int>::empty()
    } else {
        unflatten_idx(shape.drop_last(), o / (shape.last() as int)).push(o % (shape.last() as int))
    }
}

/// Quotient left of flat index `o` after consuming the extents of axes
/// `[a, len)`, last axis first.
pub open spec fn rem_quot(shape: Seq<usize>, o: int, a: int) -> int
    decreases shape.len() - a,
{
    if a >= shape.len() {
        o
    } else {
        rem_quot(shape, o, a + 1) / (shape[a] as int)
    }
}

proof fn lemma_rem_quot_drop(shape: Seq<usize>, o: int, a: int)
    requires
        shape.len() >= 1,
        0 <= a <= shape.len() - 1,
    ensures
        rem_quot(shape, o, a) == rem_quot(shape.drop_last(), o / (shape.last() as int), a),
    decreases shape.len() - a,
{
    if a < shape.len() - 1 {
        lemma_rem_quot_drop(shape, o, a + 1);
    } else {
        assert(rem_quot(shape, o, a + 1) == o);
        assert(rem_quot(shape.drop_last(), o / (shape.last() as int), a) == o / (
        shape.last() as int));
    }
}

/// An unflattened index has one component per axis.
pub proof fn lemma_unflatten_len(shape: Seq<usize>, o: int)
    ensures
        unflatten_idx(shape, o).len() == shape.len(),
    decreases shape.len(),
{
    if shape.len() > 0 {
        lemma_unflatten_len(shape.drop_last(), o / (shape.last() as int));
    }
}

/// Component `i` of an unflattened index, as the backward quotient-remainder
/// walk computes it.
pub proof fn lemma_unflatten_component(shape: Seq<usize>, o: int, i: int)
    requires
        0 <= i < shape.len(),
    ensures
        unflatten_idx(shape, o)[i] == rem_quot(shape, o, i + 1) % (shape[i] as int),
    decreases shape.len(),
{
    lemma_unflatten_len(shape.drop_last(), o / (shape.last() as int));
    if i == shape.len() - 1 {
    } else {
        lemma_unflatten_component(shape.drop_last(), o / (shape.last() as int), i);
        lemma_rem_quot_drop(shape, o, i + 1);
    }
}

/// A flat index inside the array unflattens to a multi-index inside the
/// shape.
pub proof fn lemma_unflatten_in_range(shape: Seq<usize>, o: int)
    requires
        forall|a: int| 0 <= a < shape.len() ==> #[trigger] shape[a] >= 1,
        0 <= o < prod_of(shape),
    ensures
        mi_in_range(shape, unflatten_idx(shape, o)),
    decreases shape.len(),
{
    if shape.len() > 0 {
        let e = shape.last() as int;
        lemma_fundamental_div_mod(o, e);
        assert(0 <= o % e < e && 0 <= o / e) by (nonlinear_arith)
            requires
                e >= 1,
                0 <= o,
                o == e * (o / e) + (o % e),
        ;
        assert(o / e < prod_of(shape.drop_last())) by (nonlinear_arith)
            requires
                e >= 1,
                o < prod_of(shape.drop_last()) * e,
                o == e * (o / e) + (o % e),
                0 <= o % e,
        ;
        lemma_unflatten_in_range(shape.drop_last(), o / e);
    }
}

/// Flattening undoes unflattening: the walk over the axes is a bijection
/// between flat indices and in-range multi-indices.
pub proof fn lemma_flatten_unflatten(shape: Seq<usize>, o: int)
    requires
        forall|a: int| 0 <= a < shape.len() ==> #[trigger] shape[a] >= 1,
        0 <= o < prod_of(shape),
    ensures
        flatten_idx(shape, unflatten_idx(shape, o)) == o,
    decreases shape.len(),
{
    if shape.len() > 0 {
        let e = shape.last() as int;
        let u = unflatten_idx(shape, o);
        lemma_fundamental_div_mod(o, e);
        assert(0 <= o % e < e && 0 <= o / e) by (nonlinear_arith)
            requires
                e >= 1,
                0 <= o,
                o == e * (o / e) + (o % e),
        ;
        assert(o / e < prod_of(shape.drop_last())) by (nonlinear_arith)
            requires
                e >= 1,
                o < prod_of(shape.drop_last()) * e,
                o == e * (o / e) + (o % e),
                0 <= o % e,
        ;
        lemma_flatten_unflatten(shape.drop_last(), o / e);
        assert(u.drop_last() =~= unflatten_idx(shape.drop_last(), o / e));
        assert((o / e) * e + o % e == o) by (nonlinear_arith)
            requires
                o == e * (o / e) + (o % e),
        ;
    }
}

/// An in-range multi-index flattens to a flat index inside the array.
pub proof fn lemma_flatten_in_range(shape: Seq<usize>, mi: Seq<int>)
    requires
        mi_in_range(shape, mi),
    ensures
        0 <= flatten_idx(shape, mi) < prod_of(shape),
    decreases shape.len(),
{
    if shape.len() > 0 {
        assert(mi_in_range(shape.drop_last(), mi.drop_last()));
        lemma_flatten_in_range(shape.drop_last(), mi.drop_last());
        assert(0 <= flatten_idx(shape.drop_last(), mi.drop_last()) * shape.last() + mi.last()
            < prod_of(shape.drop_last()) * shape.last()) by (nonlinear_arith)
            requires
                0 <= flatten_idx(shape.drop_last(), mi.drop_last()) < prod_of(shape.drop_last()),
                0 <= mi.last() < shape.last(),
        ;
    }
}

/// Output extents of a "valid" convolution: each axis shrinks to
/// `input_extent - kernel_extent + 1`.
pub open spec fn out_extents(in_shape: Seq<usize>, k_shape: Seq<usize>) -> Seq<usize> {
    Seq::new(in_shape.len(), |a: int| (in_shape[a] - k_shape[a] + 1) as usize)
}

/// A kernel fits a feature map when their ranks agree and no kernel extent
/// exceeds the matching feature-map extent.
pub open spec fn compute_ok(in_shape: Seq<usize>, k_shape: Seq<usize>) -> bool {
    &&& in_shape.len() == k_shape.len()
    &&& forall|a: int| 0 <= a < k_shape.len() ==> #[trigger] k_shape[a] <= in_shape[a]
}

/// One addend of an output cell: kernel tap `t` times the input cell offset
/// by tap `t` from the window anchored at output cell `o`.
pub open spec fn conv_term(
    in_num: Seq<u64>,
    in_shape: Seq<usize>,
    k_num: Seq<u64>,
    k_shape: Seq<usize>,
    o: int,
    t: int,
) -> int {
    k_num[t] * in_num[flatten_idx(
        in_shape,
        mi_add(unflatten_idx(out_extents(in_shape, k_shape), o), unflatten_idx(k_shape, t)),
    )]
}

/// Sum of the first `t` addends of output cell `o`.
pub open spec fn conv_partial(
    in_num: Seq<u64>,
    in_shape: Seq<usize>,
    k_num: Seq<u64>,
    k_shape: Seq<usize>,
    o: int,
    t: int,
) -> int
    decreases t,
{
    if t <= 0 {
        0
    } else {
        conv_partial(in_num, in_shape, k_num, k_shape, o, t - 1) + conv_term(
            in_num,
            in_shape,
            k_num,
            k_shape,
            o,
            t - 1,
        )
    }
}

/// The numerator of output cell `o`: the kernel-weighted sum over the whole
/// window anchored at it.
pub open spec fn conv_cell(
    in_num: Seq<u64>,
    in_shape: Seq<usize>,
    k_num: Seq<u64>,
    k_shape: Seq<usize>,
    o: int,
) -> int {
    conv_partial(in_num, in_shape, k_num, k_shape, o, k_num.len() as int)
}

/// Every output numerator of the convolution stays within `u64` range.
pub open spec fn conv_fits(
    in_num: Seq<u64>,
    in_shape: Seq<usize>,
    k_num: Seq<u64>,
    k_shape: Seq<usize>,
) -> bool {
    forall|o: int|
        0 <= o < prod_of(out_extents(in_shape, k_shape)) ==> #[trigger] conv_cell(
            in_num,
            in_shape,
            k_num,
            k_shape,
            o,
        ) <= u64::MAX
}

/// Partial sums of non-negative addends are non-negative.
pub proof fn lemma_conv_partial_nonneg(
    in_num: Seq<u64>,
    in_shape: Seq<usize>,
    k_num: Seq<u64>,
    k_shape: Seq<usize>,
    o: int,
    t: int,
)
    ensures
        0 <= conv_partial(in_num, in_shape, k_num, k_shape, o, t),
    decreases t,
{
    if t > 0 {
        lemma_conv_partial_nonneg(in_num, in_shape, k_num, k_shape, o, t - 1);
        let kv = k_num[t - 1];
        let iv = in_num[flatten_idx(
            in_shape,
            mi_add(unflatten_idx(out_extents(in_shape, k_shape), o), unflatten_idx(k_shape, t - 1)),
        )];
        assert(kv * iv >= 0) by (nonlinear_arith)
            requires
                kv >= 0,
                iv >= 0,
        ;
    }
}

/// Partial sums of non-negative addends only grow.
pub proof fn lemma_conv_partial_mono(
    in_num: Seq<u64>,
    in_shape: Seq<usize>,
    k_num: Seq<u64>,
    k_shape: Seq<usize>,
    o: int,
    t1: int,
    t2: int,
)
    requires
        0 <= t1 <= t2,
    ensures
        conv_partial(in_num, in_shape, k_num, k_shape, o, t1) <= conv_partial(
            in_num,
            in_shape,
            k_num,
            k_shape,
            o,
            t2,
        ),
    decreases t2,
{
    if t1 < t2 {
        lemma_conv_partial_mono(in_num, in_shape, k_num, k_shape, o, t1, t2 - 1);
        let kv = k_num[t2 - 1];
        let iv = in_num[flatten_idx(
            in_shape,
            mi_add(unflatten_idx(out_extents(in_shape, k_shape), o), unflatten_idx(k_shape, t2 - 1)),
        )];
        assert(kv * iv >= 0) by (nonlinear_arith)
            requires
                kv >= 0,
                iv >= 0,
        ;
    }
}

/// Multi-index of the cell at flat index `o` of an array of shape `shape`,
/// last axis first.
fn unflatten_at(shape: &Vec<usize>, o: usize) -> (mi: Vec<usize>)
    requires
        forall|a: int| 0 <= a < shape@.len() ==> #[trigger] shape@[a] >= 1,
    ensures
        mi@.len() == shape@.len(),
        forall|i: int|
            0 <= i < mi@.len() ==> #[trigger] mi@[i] == unflatten_idx(shape@, o as int)[i],
{
    let n = shape.len();
    let mut mi: Vec<usize> = Vec::new();
    let mut z: usize = 0;
    while z < n
        invariant
            z <= n,
            mi@.len() == z,
        decreases n - z,
    {
        mi.push(0);
        z += 1;
    }
    let mut j: usize = o;
    let mut a: usize = n;
    while a > 0
        invariant
            n == shape@.len(),
            mi@.len() == n,
            a <= n,
            forall|i: int| 0 <= i < n ==> #[trigger] shape@[i] >= 1,
            j == rem_quot(shape@, o as int, a as int),
            forall|i: int|
                a <= i < n ==> #[trigger] mi@[i] == unflatten_idx(shape@, o as int)[i],
        decreases a,
    {
        a -= 1;
        let e = shape[a];
        mi.set(a, j % e);
        proof {
            lemma_unflatten_component(shape@, o as int, a as int);
        }
        j = j / e;
    }
    mi
}

/// Componentwise sum of two multi-indices.
fn mi_add_at(x: &Vec<usize>, y: &Vec<usize>) -> (z: Vec<usize>)
    requires
        x@.len() == y@.len(),
        forall|i: int| 0 <= i < x@.len() ==> (#[trigger] x@[i]) + y@[i] <= usize::MAX,
    ensures
        z@.len() == x@.len(),
        forall|i: int| 0 <= i < z@.len() ==> #[trigger] z@[i] == x@[i] + y@[i],
{
    let n = x.len();
    let mut z: Vec<usize> = Vec::new();
    let mut i: usize = 0;
    while i < n
        invariant
            n == x@.len() == y@.len(),
            i <= n,
            z@.len() == i,
            forall|a: int| 0 <= a < x@.len() ==> (#[trigger] x@[a]) + y@[a] <= usize::MAX,
            forall|a: int| 0 <= a < i ==> #[trigger] z@[a] == x@[a] + y@[a],
        decreases n - i,
    {
        z.push(x[i] + y[i]);
        i += 1;
    }
    z
}

/// Flat index of the cell at multi-index `mi` of an array of shape `shape`.
fn flatten_at(shape: &Vec<usize>, mi: &Vec<usize>) -> (f: usize)
    requires
        shape@.len() == mi@.len(),
        forall|a: int| 0 <= a < mi@.len() ==> #[trigger] mi@[a] < shape@[a],
        prod_of(shape@) <= usize::MAX,
    ensures
        f == flatten_idx(shape@, seq_int(mi@)),
        f < prod_of(shape@),
{
    let n = shape.len();
    let mut f: usize = 0;
    let mut a: usize = 0;
    while a < n
        invariant
            n == shape@.len(),
            n == mi@.len(),
            a <= n,
            forall|i: int| 0 <= i < mi@.len() ==> #[trigger] mi@[i] < shape@[i],
            prod_of(shape@) <= usize::MAX,
            f == flatten_idx(shape@.subrange(0, a as int), seq_int(mi@).subrange(0, a as int)),
            f < prod_of(shape@.subrange(0, a as int)),
        decreases n - a,
    {
        proof {
            let pre_s = shape@.subrange(0, a as int);
            let pre_m = seq_int(mi@).subrange(0, a as int);
            let ext_s = shape@.subrange(0, a + 1);
            let ext_m = seq_int(mi@).subrange(0, a + 1);
            assert(ext_s.drop_last() =~= pre_s);
            assert(ext_m.drop_last() =~= pre_m);
            assert(flatten_idx(ext_s, ext_m) == f * shape@[a as int] + mi@[a as int]);
            assert(mi_in_range(ext_s, ext_m));
            lemma_flatten_in_range(ext_s, ext_m);
            lemma_prod_split(shape@, a + 1);
            let suf = shape@.subrange(a + 1, n as int);
            assert forall|i: int| 0 <= i < suf.len() implies suf[i] >= 1 by {
                assert(mi@[a + 1 + i] < shape@[a + 1 + i]);
            }
            lemma_prod_all_ge_one(suf);
            lemma_prod_nonneg(ext_s);
            assert(prod_of(ext_s) <= prod_of(shape@)) by (nonlinear_arith)
                requires
                    prod_of(shape@) == prod_of(ext_s) * prod_of(shape@.subrange(a + 1, n as int)),
                    prod_of(ext_s) >= 0,
                    prod_of(shape@.subrange(a + 1, n as int)) >= 1,
            ;
        }
        f = f * shape[a] + mi[a];
        a += 1;
    }
    proof {
        assert(shape@.subrange(0, n as int) =~= shape@);
        assert(seq_int(mi@).subrange(0, n as int) =~= seq_int(mi@));
    }
    f
}

/// An opaque handle binding a validated motion kernel to the operator's
/// fixed parameters (unit stride in every spatial dimension, zero padding,
/// unit dilation, a single group), built once per predict call and dropped
/// after it.
pub struct ConvolutionPlan {
    pub kernel: Distribution,
}

/// The backend accepts a kernel with at least one axis and no empty axis.
pub open spec fn plan_ok(kernel: Distribution) -> bool {
    &&& kernel.shape@.len() > 0
    &&& forall|a: int| 0 <= a < kernel.shape@.len() ==> #[trigger] kernel.shape@[a] >= 1
}

impl ConvolutionPlan {
    /// A plan holds a well-formed kernel the backend accepted.
    pub open spec fn wf(self) -> bool {
        self.kernel.wf() && plan_ok(self.kernel)
    }

    /// Executes the plan against `input` as the feature map: an exact
    /// "valid" convolution. Each output cell is the kernel-weighted sum of
    /// the input window anchored at it; each axis shrinks by the kernel
    /// extent minus one; denominators multiply. Fails with `ComputeFailed`
    /// exactly on a rank mismatch or a kernel extent exceeding the matching
    /// feature-map extent.
    pub fn execute(&self, input: &Distribution) -> (r: Result<Distribution, ConvolutionError>)
        requires
            self.wf(),
            input.wf(),
            compute_ok(input.shape@, self.kernel.shape@) ==> input.den * self.kernel.den
                <= u64::MAX,
            compute_ok(input.shape@, self.kernel.shape@) ==> conv_fits(
                input.num@,
                input.shape@,
                self.kernel.num@,
                self.kernel.shape@,
            ),
        ensures
            r is Err <==> !compute_ok(input.shape@, self.kernel.shape@),
            r matches Err(e) ==> e == ConvolutionError::ComputeFailed,
            r matches Ok(out) ==> {
                &&& out.shape@ == out_extents(input.shape@, self.kernel.shape@)
                &&& out.den == input.den * self.kernel.den
                &&& out.wf()
                &&& forall|o: int|
                    0 <= o < out.num@.len() ==> #[trigger] out.num@[o] == conv_cell(
                        input.num@,
                        input.shape@,
                        self.kernel.num@,
                        self.kernel.shape@,
                        o,
                    )
            },
    {
        let ghost in_n = input.num@;
        let ghost in_s = input.shape@;
        let ghost k_n = self.kernel.num@;
        let ghost k_s = self.kernel.shape@;
        let rank = input.shape.len();
        if rank != self.kernel.shape.len() {
            return Err(ConvolutionError::ComputeFailed);
        }
        let mut a: usize = 0;
        while a < rank
            invariant
                rank == in_s.len() == k_s.len(),
                in_s == input.shape@,
                k_s == self.kernel.shape@,
                a <= rank,
                forall|i: int| 0 <= i < a ==> #[trigger] k_s[i] <= in_s[i],
            decreases rank - a,
        {
            if self.kernel.shape[a] > input.shape[a] {
                return Err(ConvolutionError::ComputeFailed);
            }
            a += 1;
        }
        let mut out_shape: Vec<usize> = Vec::new();
        let mut a: usize = 0;
        while a < rank
            invariant
                self.wf(),
                rank == in_s.len() == k_s.len(),
                in_s == input.shape@,
                k_s == self.kernel.shape@,
                compute_ok(in_s, k_s),
                a <= rank,
                out_shape@.len() == a,
                forall|i: int| 0 <= i < a ==> #[trigger] out_shape@[i] == out_extents(in_s, k_s)[i],
                forall|i: int| 0 <= i < a ==> #[trigger] out_shape@[i] >= 1,
            decreases rank - a,
        {
            out_shape.push(input.shape[a] - self.kernel.shape[a] + 1);
            a += 1;
        }
        proof {
            assert(out_shape@ =~= out_extents(in_s, k_s));
        }
        let in_total = input.num.len();
        let total_out = match crate::dist::cell_count(&out_shape) {
            Some(c) => c,
            None => {
                proof {
                    assert forall|i: int| 0 <= i < rank implies #[trigger] out_shape@[i]
                        <= input.shape@[i] by {
                        assert(k_s[i] >= 1);
                    }
                    lemma_prod_mono(out_shape@, input.shape@);
                }
                assert(false);
                0
            },
        };
        let k_total = self.kernel.num.len();
        let mut out_num: Vec<u64> = Vec::new();
        let mut o: usize = 0;
        while o < total_out
            invariant
                self.wf(),
                input.wf(),
                rank == in_s.len() == k_s.len(),
                in_n == input.num@,
                in_s == input.shape@,
                k_n == self.kernel.num@,
                k_s == self.kernel.shape@,
                compute_ok(in_s, k_s),
                conv_fits(in_n, in_s, k_n, k_s),
                out_shape@ == out_extents(in_s, k_s),
                forall|i: int| 0 <= i < rank ==> #[trigger] out_shape@[i] >= 1,
                in_total == in_n.len(),
                total_out == prod_of(out_shape@),
                k_total == k_n.len(),
                o <= total_out,
                out_num@.len() == o,
                forall|oo: int|
                    0 <= oo < o ==> #[trigger] out_num@[oo] == conv_cell(in_n, in_s, k_n, k_s, oo),
            decreases total_out - o,
        {
            proof {
                lemma_unflatten_in_range(out_shape@, o as int);
                lemma_unflatten_len(out_shape@, o as int);
            }
            let om = unflatten_at(&out_shape, o);
            let mut acc: u64 = 0;
            let mut t: usize = 0;
            while t < k_total
                invariant
                    self.wf(),
                    input.wf(),
                    rank == in_s.len() == k_s.len(),
                    in_n == input.num@,
                    in_s == input.shape@,
                    k_n == self.kernel.num@,
                    k_s == self.kernel.shape@,
                    compute_ok(in_s, k_s),
                    conv_fits(in_n, in_s, k_n, k_s),
                    out_shape@ == out_extents(in_s, k_s),
                    in_total == in_n.len(),
                    total_out == prod_of(out_shape@),
                    k_total == k_n.len(),
                    o < total_out,
                    om@.len() == rank,
                    forall|i: int|
                        0 <= i < rank ==> #[trigger] om@[i] == unflatten_idx(
                            out_shape@,
                            o as int,
                        )[i],
                    mi_in_range(out_shape@, unflatten_idx(out_shape@, o as int)),
                    t <= k_total,
                    acc == conv_partial(in_n, in_s, k_n, k_s, o as int, t as int),
                decreases k_total - t,
            {
                proof {
                    lemma_unflatten_in_range(k_s, t as int);
                    lemma_unflatten_len(k_s, t as int);
                }
                let tm = unflatten_at(&self.kernel.shape, t);
                proof {
                    assert forall|i: int| 0 <= i < om@.len() implies (#[trigger] om@[i]) + tm@[i]
                        <= usize::MAX by {
                        assert(om@[i] < out_shape@[i]);
                        assert(tm@[i] < k_s[i]);
                    }
                }
                let im = mi_add_at(&om, &tm);
                let ghost full = mi_add(
                    unflatten_idx(out_extents(in_s, k_s), o as int),
                    unflatten_idx(k_s, t as int),
                );
                proof {
                    assert(seq_int(im@) =~= full);
                    assert forall|i: int| 0 <= i < im@.len() implies (#[trigger] im@[i])
                        < in_s[i] by {
                        assert(om@[i] <= in_s[i] - k_s[i]);
                        assert(tm@[i] < k_s[i]);
                    }
                    assert(mi_in_range(in_s, seq_int(im@)));
                }
                let f = flatten_at(&input.shape, &im);
                proof {
                    lemma_conv_partial_nonneg(in_n, in_s, k_n, k_s, o as int, t as int);
                    lemma_conv_partial_mono(in_n, in_s, k_n, k_s, o as int, t + 1, k_total as int);
                    assert(conv_partial(in_n, in_s, k_n, k_s, o as int, t + 1) == conv_partial(
                        in_n,
                        in_s,
                        k_n,
                        k_s,
                        o as int,
                        t as int,
                    ) + conv_term(in_n, in_s, k_n, k_s, o as int, t as int));
                    assert(conv_term(in_n, in_s, k_n, k_s, o as int, t as int) == k_n[t as int]
                        * in_n[f as int]);
                    assert(conv_cell(in_n, in_s, k_n, k_s, o as int) <= u64::MAX);
                }
                let v = self.kernel.num[t] * input.num[f];
                acc = acc + v;
                t += 1;
            }
            out_num.push(acc);
            o += 1;
        }
        proof {
            assert(input.den * self.kernel.den >= 1) by (nonlinear_arith)
                requires
                    input.den >= 1,
                    self.kernel.den >= 1,
            ;
        }
        Ok(
            Distribution {
                shape: out_shape,
                num: out_num,
                den: input.den * self.kernel.den,
            },
        )
    }
}

/// Builds a convolution plan for the kernel's dimensionality with the
/// operator's fixed parameters. Fails with `BuildFailed` exactly when the
/// backend rejects the kernel: no axis at all, or an empty axis.
pub fn build_plan(kernel: Distribution) -> (r: Result<ConvolutionPlan, ConvolutionError>)
    requires
        kernel.wf(),
    ensures
        r is Ok <==> plan_ok(kernel),
        r matches Err(e) ==> e == ConvolutionError::BuildFailed,
        r matches Ok(p) ==> p.kernel == kernel && p.wf(),
{
    let n = kernel.shape.len();
    if n == 0 {
        return Err(ConvolutionError::BuildFailed);
    }
    let mut a: usize = 0;
    while a < n
        invariant
            n == kernel.shape@.len(),
            a <= n,
            forall|i: int| 0 <= i < a ==> #[trigger] kernel.shape@[i] >= 1,
        decreases n - a,
    {
        if kernel.shape[a] == 0 {
            return Err(ConvolutionError::BuildFailed);
        }
        a += 1;
    }
    Ok(ConvolutionPlan { kernel })
}

/// Convolves a (translated) distribution with a motion kernel: builds the
/// plan, then executes it, surfacing the first failure unrecovered.
pub fn diffuse(translated: &Distribution, kernel: Distribution) -> (r: Result<
    Distribution,
    ConvolutionError,
>)
    requires
        translated.wf(),
        kernel.wf(),
        compute_ok(translated.shape@, kernel.shape@) ==> translated.den * kernel.den <= u64::MAX,
        compute_ok(translated.shape@, kernel.shape@) ==> conv_fits(
            translated.num@,
            translated.shape@,
            kernel.num@,
            kernel.shape@,
        ),
    ensures
        r == Err::<Distribution, ConvolutionError>(ConvolutionError::BuildFailed) <==> !plan_ok(
            kernel,
        ),
        plan_ok(kernel) ==> (r == Err::<Distribution, ConvolutionError>(
            ConvolutionError::ComputeFailed,
        ) <==> !compute_ok(translated.shape@, kernel.shape@)),
        r matches Ok(out) ==> {
            &&& out.shape@ == out_extents(translated.shape@, kernel.shape@)
            &&& out.den == translated.den * kernel.den
            &&& out.wf()
            &&& forall|o: int|
                0 <= o < out.num@.len() ==> #[trigger] out.num@[o] == conv_cell(
                    translated.num@,
                    translated.shape@,
                    kernel.num@,
                    kernel.shape@,
                    o,
                )
        },
{
    let plan = match build_plan(kernel) {
        Ok(p) => p,
        Err(e) => {
            return Err(e);
        },
    };
    plan.execute(translated)
}

/// A single unit tap: a kernel of the given rank whose every extent is one
/// and whose only cell holds exactly the mass one.
pub open spec fn is_identity_kernel(k: Distribution, rank: int) -> bool {
    &&& k.wf()
    &&& k.shape@.len() == rank
    &&& forall|a: int| 0 <= a < k.shape@.len() ==> #[trigger] k.shape@[a] == 1
    &&& k.num@.len() == 1
    &&& k.num@[0] == k.den
}

/// Law (convolution half): convolving with an identity kernel leaves the
/// array in place — every output cell is the matching input numerator
/// scaled by the kernel's denominator, and the shape does not shrink.
pub proof fn lemma_identity_kernel_cell(in_num: Seq<u64>, in_shape: Seq<usize>, k: Distribution)
    requires
        in_num.len() == prod_of(in_shape),
        forall|a: int| 0 <= a < in_shape.len() ==> #[trigger] in_shape[a] >= 1,
        is_identity_kernel(k, in_shape.len() as int),
    ensures
        compute_ok(in_shape, k.shape@),
        out_extents(in_shape, k.shape@) == in_shape,
        forall|o: int|
            0 <= o < in_num.len() ==> #[trigger] conv_cell(in_num, in_shape, k.num@, k.shape@, o)
                == k.den * in_num[o],
{
    assert(out_extents(in_shape, k.shape@) =~= in_shape);
    assert forall|o: int| 0 <= o < in_num.len() implies #[trigger] conv_cell(
        in_num,
        in_shape,
        k.num@,
        k.shape@,
        o,
    ) == k.den * in_num[o] by {
        let uo = unflatten_idx(out_extents(in_shape, k.shape@), o);
        let ut = unflatten_idx(k.shape@, 0);
        lemma_prod_of_ones(k.shape@);
        lemma_unflatten_in_range(k.shape@, 0);
        lemma_unflatten_len(k.shape@, 0);
        lemma_unflatten_len(in_shape, o);
        assert(mi_add(uo, ut) =~= uo);
        lemma_flatten_unflatten(in_shape, o);
        assert(conv_partial(in_num, in_shape, k.num@, k.shape@, o, 0) == 0);
        assert(conv_cell(in_num, in_shape, k.num@, k.shape@, o) == conv_term(
            in_num,
            in_shape,
            k.num@,
            k.shape@,
            o,
            0,
        ));
    }
}

} // verus!
