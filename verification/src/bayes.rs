//! The filter's two phases: a predict step that translates and diffuses the
//! belief under a motion kernel, and an update step that fuses it with
//! fresh evidence and renormalizes.

use vstd::prelude::*;

use crate::conv::{
    build_plan, compute_ok, conv_cell, conv_fits, is_identity_kernel, lemma_identity_kernel_cell,
    out_extents, plan_ok, ConvolutionError,
};
use crate::dist::{DegenerateDistributionError, DimensionError, Distribution};
use crate::sums::{
    lemma_mass_range_nonneg, lemma_mass_range_scale, lemma_mass_range_split, mass_range, mass_total,
};
use crate::translate::{
    lemma_wrap_identity, mode_wf, shift_fits, shift_nums, translate, translate_ok, wrap_nums,
    PDMode, PredictionConfig,
};

verus! {

/// Why an update call failed: the operands' shapes disagree, or the fused
/// distribution has no mass left to normalize.
#[derive(Clone, Copy, Debug, PartialEq, Eq, Structural)]
pub enum UpdateError {
    Dimension(DimensionError),
    Degenerate(DegenerateDistributionError),
}

/// Why a predict call failed: the translation offset does not fit the
/// trailing axis, or the convolution backend rejected the kernel or the
/// feature map.
#[derive(Clone, Copy, Debug, PartialEq, Eq, Structural)]
pub enum PredictError {
    Dimension(DimensionError),
    Convolution(ConvolutionError),
}

/// The elementwise (Hadamard) product of two numerator arrays.
pub open spec fn hadamard(a: Seq<u64>, b: Seq<u64>) -> Seq<u64> {
    Seq::new(a.len(), |i: int| (a[i] * b[i]) as u64)
}

/// The products and their sum taken by an update stay within `u64` range.
pub open spec fn update_fits(l: Seq<u64>, p: Seq<u64>) -> bool {
    &&& forall|i: int| 0 <= i < l.len() ==> (#[trigger] l[i]) * p[i] <= u64::MAX
    &&& mass_total(hadamard(l, p)) <= u64::MAX
}

/// Sum of all numerators of a mass array.
fn sum_masses(num: &Vec<u64>) -> (s: u64)
    requires
        mass_total(num@) <= u64::MAX,
    ensures
        s == mass_total(num@),
{
    let n = num.len();
    let mut s: u64 = 0;
    let mut i: usize = 0;
    while i < n
        invariant
            n == num@.len(),
            i <= n,
            mass_total(num@) <= u64::MAX,
            s == mass_range(num@, 0, i as int),
        decreases n - i,
    {
        proof {
            lemma_mass_range_split(num@, 0, i + 1, n as int);
            lemma_mass_range_nonneg(num@, i + 1, n as int);
        }
        s = s + num[i];
        i += 1;
    }
    s
}

/// Whether two shapes are equal, axis for axis.
fn shapes_match(a: &Vec<usize>, b: &Vec<usize>) -> (m: bool)
    ensures
        m == (a@ == b@),
{
    let n = a.len();
    if n != b.len() {
        return false;
    }
    let mut i: usize = 0;
    while i < n
        invariant
            n == a@.len() == b@.len(),
            i <= n,
            forall|j: int| 0 <= j < i ==> a@[j] == b@[j],
        decreases n - i,
    {
        if a[i] != b[i] {
            return false;
        }
        i += 1;
    }
    proof {
        assert(a@ =~= b@);
    }
    true
}

/// Divides every cell by the scalar total mass, exactly: the numerators are
/// kept and the denominator becomes their sum. A zero-sum distribution is
/// rejected with `DegenerateDistributionError` rather than turned into an
/// ill-defined output.
///
/// The successful result always carries total mass exactly one
/// (`is_normalized`), not merely within a tolerance.
pub fn normalize(pdf: Distribution) -> (r: Result<Distribution, DegenerateDistributionError>)
    requires
        pdf.wf(),
        mass_total(pdf.num@) <= u64::MAX,
    ensures
        r is Err <==> mass_total(pdf.num@) == 0,
        r matches Ok(p) ==> {
            &&& p.shape@ == pdf.shape@
            &&& p.num@ == pdf.num@
            &&& p.den == mass_total(pdf.num@)
            &&& p.wf()
            &&& p.is_normalized()
        },
{
    let total = sum_masses(&pdf.num);
    if total == 0 {
        Err(DegenerateDistributionError)
    } else {
        Ok(Distribution { shape: pdf.shape, num: pdf.num, den: total })
    }
}

/// Fuses the prior belief with the likelihood of fresh evidence: the
/// elementwise product of the two arrays, renormalized. Returns the
/// posterior rather than mutating anything; the caller replaces its stored
/// belief with the result. Rejects mismatched shapes with a
/// `DimensionError`, and a fused distribution with no mass left (evidence
/// fully excluding the prior) with a `DegenerateDistributionError`.
pub fn update(likelihood: Distribution, prior: Distribution) -> (r: Result<
    Distribution,
    UpdateError,
>)
    requires
        likelihood.wf(),
        prior.wf(),
        likelihood.shape@ == prior.shape@ ==> update_fits(likelihood.num@, prior.num@),
    ensures
        r == Err::<Distribution, UpdateError>(UpdateError::Dimension(DimensionError))
            <==> likelihood.shape@ != prior.shape@,
        likelihood.shape@ == prior.shape@ ==> (r == Err::<Distribution, UpdateError>(
            UpdateError::Degenerate(DegenerateDistributionError),
        ) <==> mass_total(hadamard(likelihood.num@, prior.num@)) == 0),
        r matches Ok(p) ==> {
            &&& p.shape@ == prior.shape@
            &&& p.num@ == hadamard(likelihood.num@, prior.num@)
            &&& p.den == mass_total(hadamard(likelihood.num@, prior.num@))
            &&& p.wf()
            &&& p.is_normalized()
        },
{
    if !shapes_match(&likelihood.shape, &prior.shape) {
        return Err(UpdateError::Dimension(DimensionError));
    }
    let n = prior.num.len();
    let mut fused: Vec<u64> = Vec::new();
    let mut i: usize = 0;
    while i < n
        invariant
            likelihood.wf(),
            prior.wf(),
            likelihood.shape@ == prior.shape@,
            update_fits(likelihood.num@, prior.num@),
            n == prior.num@.len(),
            n == likelihood.num@.len(),
            i <= n,
            fused@.len() == i,
            forall|j: int|
                0 <= j < i ==> #[trigger] fused@[j] == hadamard(likelihood.num@, prior.num@)[j],
        decreases n - i,
    {
        fused.push(likelihood.num[i] * prior.num[i]);
        i += 1;
    }
    proof {
        assert(fused@ =~= hadamard(likelihood.num@, prior.num@));
    }
    let total = sum_masses(&fused);
    if total == 0 {
        return Err(UpdateError::Degenerate(DegenerateDistributionError));
    }
    Ok(Distribution { shape: prior.shape, num: fused, den: total })
}

/// The numerators a predict step feeds to the convolution: the input
/// distribution translated along its trailing axis under the configured
/// boundary mode.
pub open spec fn translated_nums(d: Distribution, conf: PredictionConfig) -> Seq<u64> {
    match conf.mode {
        PDMode::Wrap => wrap_nums(d.num@, d.shape@.last() as int, conf.offset as int),
        PDMode::Constant { cval } => shift_nums(
            d.num@,
            d.shape@.last() as int,
            conf.offset as int,
            (cval.num * d.den) as u64,
            cval.den,
        ),
    }
}

/// The denominator of the translated distribution: constant fill rescales
/// by the fill mass's denominator, wrap-around changes nothing.
pub open spec fn translated_den(d: Distribution, m: PDMode) -> int {
    match m {
        PDMode::Wrap => d.den as int,
        PDMode::Constant { cval } => d.den * cval.den,
    }
}

/// The products a predict step takes stay within `u64` range once the
/// translation and the convolution are both defined.
pub open spec fn predict_fits(d: Distribution, kernel: Distribution, conf: PredictionConfig) -> bool {
    plan_ok(kernel) && translate_ok(d, conf.offset as int) && compute_ok(d.shape@, kernel.shape@)
        ==> {
        &&& translated_den(d, conf.mode) * kernel.den <= u64::MAX
        &&& conv_fits(translated_nums(d, conf), d.shape@, kernel.num@, kernel.shape@)
    }
}

/// One predict step: builds the convolution plan for the kernel, translates
/// the belief along its trailing axis under the configured boundary mode,
/// and diffuses the translated belief through the kernel. The first failure
/// is surfaced unrecovered: a rejected kernel as `BuildFailed`, then an
/// offset that does not fit the trailing axis as a `DimensionError`, then a
/// kernel/feature-map mismatch as `ComputeFailed`.
pub fn predict(pdf: Distribution, kernel: Distribution, pred_conf: PredictionConfig) -> (r: Result<
    Distribution,
    PredictError,
>)
    requires
        pdf.wf(),
        kernel.wf(),
        mode_wf(pred_conf.mode),
        pred_conf.mode matches PDMode::Constant { cval } ==> shift_fits(pdf, cval),
        predict_fits(pdf, kernel, pred_conf),
    ensures
        r == Err::<Distribution, PredictError>(
            PredictError::Convolution(ConvolutionError::BuildFailed),
        ) <==> !plan_ok(kernel),
        plan_ok(kernel) ==> (r == Err::<Distribution, PredictError>(
            PredictError::Dimension(DimensionError),
        ) <==> !translate_ok(pdf, pred_conf.offset as int)),
        plan_ok(kernel) && translate_ok(pdf, pred_conf.offset as int) ==> (r == Err::<
            Distribution,
            PredictError,
        >(PredictError::Convolution(ConvolutionError::ComputeFailed)) <==> !compute_ok(
            pdf.shape@,
            kernel.shape@,
        )),
        r matches Ok(out) ==> {
            &&& out.shape@ == out_extents(pdf.shape@, kernel.shape@)
            &&& out.den == translated_den(pdf, pred_conf.mode) * kernel.den
            &&& out.wf()
            &&& forall|o: int|
                0 <= o < out.num@.len() ==> #[trigger] out.num@[o] == conv_cell(
                    translated_nums(pdf, pred_conf),
                    pdf.shape@,
                    kernel.num@,
                    kernel.shape@,
                    o,
                )
        },
{
    let ghost pdf0 = pdf;
    let plan = match build_plan(kernel) {
        Ok(p) => p,
        Err(e) => {
            return Err(PredictError::Convolution(e));
        },
    };
    let translated = match translate(pdf, pred_conf.offset, pred_conf.mode) {
        Ok(t) => t,
        Err(e) => {
            return Err(PredictError::Dimension(e));
        },
    };
    proof {
        assert(translated.num@ == translated_nums(pdf0, pred_conf));
        assert(translated.den == translated_den(pdf0, pred_conf.mode));
    }
    match plan.execute(&translated) {
        Ok(out) => Ok(out),
        Err(e) => Err(PredictError::Convolution(e)),
    }
}

/// Law: a constant-valued likelihood carries no information. When every
/// likelihood cell holds the same positive numerator `c` and the prior has
/// mass to normalize, the posterior that `update` returns holds, cell for
/// cell, the same exact values as the prior renormalized by `normalize`:
/// the posterior's numerators are the prior's scaled by `c`, its
/// denominator is the prior's total scaled by `c`, and the cross-multiplied
/// value equality below is exactly value-by-value equality of the two
/// rationals.
pub proof fn lemma_uniform_likelihood(l: Distribution, p: Distribution, c: u64)
    requires
        l.wf(),
        p.wf(),
        l.shape@ == p.shape@,
        forall|i: int| 0 <= i < l.num@.len() ==> l.num@[i] == c,
        c >= 1,
        update_fits(l.num@, p.num@),
        mass_total(p.num@) >= 1,
    ensures
        mass_total(hadamard(l.num@, p.num@)) == c * mass_total(p.num@),
        mass_total(hadamard(l.num@, p.num@)) >= 1,
        forall|i: int|
            0 <= i < p.num@.len() ==> #[trigger] hadamard(l.num@, p.num@)[i] * mass_total(p.num@)
                == p.num@[i] * mass_total(hadamard(l.num@, p.num@)),
{
    let h = hadamard(l.num@, p.num@);
    let n = p.num@.len() as int;
    assert forall|i: int| 0 <= i < n implies #[trigger] h[i] == c * p.num@[i] by {
        assert(l.num@[i] * p.num@[i] <= u64::MAX);
    }
    lemma_mass_range_scale(p.num@, h, c as int, 0, n);
    assert(c * mass_total(p.num@) >= 1) by (nonlinear_arith)
        requires
            c >= 1,
            mass_total(p.num@) >= 1,
    ;
    assert forall|i: int| 0 <= i < n implies #[trigger] h[i] * mass_total(p.num@) == p.num@[i]
        * mass_total(h) by {
        assert((c * p.num@[i]) * mass_total(p.num@) == p.num@[i] * (c * mass_total(
            p.num@,
        ))) by (nonlinear_arith);
    }
}

/// Law: predict with an identity kernel (a single unit tap) and offset zero
/// returns a distribution equal, cell for cell, to its input. The
/// cross-multiplied equality below is exactly value-by-value equality of
/// the result (whose numerators are scaled by the kernel's denominator) and
/// the input.
pub proof fn lemma_identity_predict(d: Distribution, k: Distribution, conf: PredictionConfig)
    requires
        d.wf(),
        d.shape@.len() > 0,
        forall|a: int| 0 <= a < d.shape@.len() ==> #[trigger] d.shape@[a] >= 1,
        is_identity_kernel(k, d.shape@.len() as int),
        conf.offset == 0,
        conf.mode == PDMode::Wrap,
    ensures
        plan_ok(k),
        translate_ok(d, 0),
        compute_ok(d.shape@, k.shape@),
        out_extents(d.shape@, k.shape@) == d.shape@,
        translated_nums(d, conf) == d.num@,
        translated_den(d, conf.mode) == d.den,
        forall|o: int|
            0 <= o < d.num@.len() ==> #[trigger] conv_cell(d.num@, d.shape@, k.num@, k.shape@, o)
                * d.den == d.num@[o] * (translated_den(d, conf.mode) * k.den),
{
    lemma_wrap_identity(d.num@, d.shape@.last() as int);
    lemma_identity_kernel_cell(d.num@, d.shape@, k);
    assert forall|o: int| 0 <= o < d.num@.len() implies #[trigger] conv_cell(
        d.num@,
        d.shape@,
        k.num@,
        k.shape@,
        o,
    ) * d.den == d.num@[o] * (translated_den(d, conf.mode) * k.den) by {
        assert((k.den * d.num@[o]) * d.den == d.num@[o] * (d.den * k.den)) by (nonlinear_arith);
    }
}

} // verus!
