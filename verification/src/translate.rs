//! Boundary-aware translation of a distribution along its trailing axis:
//! circular wrap-around, or a linear shift that fills the vacated leading
//! cells with a constant mass.

use vstd::prelude::*;

use crate::dist::{lemma_prod_nonneg, prod_of, DimensionError, Distribution, Mass};
use crate::sums::{lemma_mass_range_agree, lemma_mass_range_split, mass_range, mass_total};
use vstd::arithmetic::div_mod::{
    lemma_fundamental_div_mod, lemma_fundamental_div_mod_converse_div,
    lemma_fundamental_div_mod_converse_mod,
};

verus! {

/// Boundary policy for the cells introduced at the array edge during
/// translation: circular wrap-around, or a constant fill mass.
#[derive(Clone, Copy, Debug, PartialEq, Eq, Structural)]
pub enum PDMode {
    Wrap,
    Constant { cval: Mass },
}

/// Settings of one predict step: how far the belief is translated along the
/// trailing axis, and which boundary policy fills the vacated cells.
#[derive(Clone, Copy, Debug, PartialEq, Eq, Structural)]
pub struct PredictionConfig {
    pub offset: usize,
    pub mode: PDMode,
}

impl Default for PredictionConfig {
    /// No translation, wrap-around boundary.
    fn default() -> (c: PredictionConfig)
        ensures
            c.offset == 0,
            c.mode == PDMode::Wrap,
    {
        PredictionConfig { offset: 0, mode: PDMode::Wrap }
    }
}

/// A boundary mode is meaningful when its fill mass (if any) is.
pub open spec fn mode_wf(m: PDMode) -> bool {
    match m {
        PDMode::Wrap => true,
        PDMode::Constant { cval } => cval.wf(),
    }
}

/// Translation moves cells along the trailing axis; it is defined exactly
/// when that axis exists and the offset stays inside its extent.
pub open spec fn translate_ok(d: Distribution, offset: int) -> bool {
    d.shape@.len() > 0 && offset < d.shape@.last()
}

/// Source column of output column `j` under a wrap translation by `k` on an
/// axis of extent `e`: the last `k` columns of each row move to its front.
pub open spec fn wrap_src_col(j: int, e: int, k: int) -> int {
    if j < k {
        j + e - k
    } else {
        j - k
    }
}

/// Source flat index of output flat index `o` under a wrap translation by
/// `k` along the trailing axis of extent `e` (rows are left in place).
pub open spec fn wrap_src(o: int, e: int, k: int) -> int {
    (o / e) * e + wrap_src_col(o % e, e, k)
}

/// The numerators after a wrap translation by `k` along the trailing axis of
/// extent `e`: a pure permutation of the input numerators.
pub open spec fn wrap_nums(s: Seq<u64>, e: int, k: int) -> Seq<u64> {
    Seq::new(s.len(), |o: int| s[wrap_src(o, e, k)])
}

/// The numerators after a constant-fill shift by `k` along the trailing axis
/// of extent `e`: each row's first `k` cells become `fill`, the rest receive
/// the row's leading cells scaled by `scale` (the fill mass's denominator).
pub open spec fn shift_nums(s: Seq<u64>, e: int, k: int, fill: u64, scale: u64) -> Seq<u64> {
    Seq::new(
        s.len(),
        |o: int|
            if o % e < k {
                fill
            } else {
                (s[o - k] * scale) as u64
            },
    )
}

/// The products a constant-fill shift takes, all within `u64` range.
pub open spec fn shift_fits(d: Distribution, cval: Mass) -> bool {
    &&& cval.num * d.den <= u64::MAX
    &&& d.den * cval.den <= u64::MAX
    &&& forall|i: int| 0 <= i < d.num@.len() ==> (#[trigger] d.num@[i]) * cval.den <= u64::MAX
}

/// Row decomposition of a flat index `o` of an array of `rows` rows whose
/// trailing axis has extent `e`.
proof fn lemma_flat_index(o: int, e: int, rows: int)
    requires
        e >= 1,
        0 <= o,
        o < rows * e,
    ensures
        (o / e) * e + (o % e) == o,
        0 <= o % e < e,
        0 <= o / e < rows,
        (o / e) * e + e <= rows * e,
{
    lemma_fundamental_div_mod(o, e);
    assert(0 <= o % e < e) by (nonlinear_arith)
        requires
            e >= 1,
            0 <= o,
            o == e * (o / e) + (o % e),
            o % e == o - e * (o / e),
    ;
    assert(0 <= o / e < rows && (o / e) * e + e <= rows * e) by (nonlinear_arith)
        requires
            e >= 1,
            0 <= o,
            o < rows * e,
            o == e * (o / e) + (o % e),
            0 <= o % e < e,
    ;
}

/// Circular translation (the wrap boundary mode): each row of the trailing
/// axis is rotated so that its last `offset` cells move to its front. A pure
/// permutation: total mass is conserved exactly.
fn roll(a: Distribution, offset: usize) -> (r: Distribution)
    requires
        a.wf(),
        a.shape@.len() > 0,
        offset < a.shape@.last(),
    ensures
        r.shape@ == a.shape@,
        r.den == a.den,
        r.num@ == wrap_nums(a.num@, a.shape@.last() as int, offset as int),
        mass_total(r.num@) == mass_total(a.num@),
        r.wf(),
{
    let n_axes = a.shape.len();
    let e = a.shape[n_axes - 1];
    let total = a.num.len();
    let k = offset;
    let ghost rows_g: int = prod_of(a.shape@.drop_last());
    proof {
        lemma_prod_nonneg(a.shape@.drop_last());
        lemma_fundamental_div_mod_converse_div(total as int, e as int, rows_g, 0);
    }
    let rows = total / e;
    let mut out: Vec<u64> = Vec::new();
    let mut row: usize = 0;
    while row < rows
        invariant
            a.wf(),
            a.shape@.len() > 0,
            e == a.shape@.last(),
            k == offset,
            k < e,
            total == a.num@.len(),
            total == rows * e,
            row <= rows,
            out@.len() == row * e,
            forall|o: int|
                0 <= o < out@.len() ==> out@[o] == wrap_nums(a.num@, e as int, k as int)[o],
            mass_range(out@, 0, row * e) == mass_range(a.num@, 0, row * e),
        decreases rows - row,
    {
        proof {
            assert(row * e + e <= rows * e && 0 <= row * e) by (nonlinear_arith)
                requires
                    row < rows,
                    e >= 1,
            ;
        }
        let base = row * e;
        let mut j: usize = 0;
        while j < k
            invariant
                a.wf(),
                e == a.shape@.last(),
                k < e,
                total == a.num@.len(),
                total == rows * e,
                row < rows,
                base == row * e,
                base + e <= total,
                j <= k,
                out@.len() == base + j,
                forall|o: int|
                    0 <= o < out@.len() ==> out@[o] == wrap_nums(a.num@, e as int, k as int)[o],
                mass_range(out@, 0, base as int) == mass_range(a.num@, 0, base as int),
                mass_range(out@, base as int, base + j) == mass_range(
                    a.num@,
                    base + e - k,
                    base + e - k + j,
                ),
            decreases k - j,
        {
            let src = base + (e - k) + j;
            let v = a.num[src];
            let ghost pre = out@;
            out.push(v);
            proof {
                lemma_mass_range_agree(pre, out@, 0, base as int);
                lemma_mass_range_agree(pre, out@, base as int, base + j);
                lemma_fundamental_div_mod_converse_div(base + j, e as int, row as int, j as int);
                lemma_fundamental_div_mod_converse_mod(base + j, e as int, row as int, j as int);
                assert(out@[base + j] == a.num@[wrap_src(base + j, e as int, k as int)]);
            }
            j += 1;
        }
        let head = e - k;
        let mut j: usize = 0;
        while j < head
            invariant
                a.wf(),
                e == a.shape@.last(),
                k < e,
                head == e - k,
                total == a.num@.len(),
                total == rows * e,
                row < rows,
                base == row * e,
                base + e <= total,
                j <= head,
                out@.len() == base + k + j,
                forall|o: int|
                    0 <= o < out@.len() ==> out@[o] == wrap_nums(a.num@, e as int, k as int)[o],
                mass_range(out@, 0, base as int) == mass_range(a.num@, 0, base as int),
                mass_range(out@, base as int, base + k) == mass_range(
                    a.num@,
                    base + e - k,
                    base + e,
                ),
                mass_range(out@, base + k, base + k + j) == mass_range(a.num@, base as int, base + j),
            decreases head - j,
        {
            let src = base + j;
            let v = a.num[src];
            let ghost pre = out@;
            out.push(v);
            proof {
                lemma_mass_range_agree(pre, out@, 0, base as int);
                lemma_mass_range_agree(pre, out@, base as int, base + k);
                lemma_mass_range_agree(pre, out@, base + k, base + k + j);
                lemma_fundamental_div_mod_converse_div(
                    base + k + j,
                    e as int,
                    row as int,
                    k + j as int,
                );
                lemma_fundamental_div_mod_converse_mod(
                    base + k + j,
                    e as int,
                    row as int,
                    k + j as int,
                );
                assert(out@[base + k + j] == a.num@[wrap_src(base + k + j, e as int, k as int)]);
            }
            j += 1;
        }
        proof {
            lemma_mass_range_split(out@, base as int, base + k, base + e);
            lemma_mass_range_split(a.num@, base as int, base + (e - k), base + e);
            lemma_mass_range_split(out@, 0, base as int, base + e);
            lemma_mass_range_split(a.num@, 0, base as int, base + e);
            assert((row + 1) * e == row * e + e) by (nonlinear_arith);
        }
        row += 1;
    }
    proof {
        assert(out@ =~= wrap_nums(a.num@, e as int, k as int));
    }
    Distribution { shape: a.shape, num: out, den: a.den }
}

/// Linear translation with constant fill (the constant boundary mode): each
/// row's cells move `offset` places toward the end of the trailing axis, the
/// vacated leading cells receive the fill mass `cval`, and the cells shifted
/// past the end are discarded. Mass is not conserved in general.
fn shift(a: Distribution, offset: usize, cval: Mass) -> (r: Distribution)
    requires
        a.wf(),
        a.shape@.len() > 0,
        offset < a.shape@.last(),
        cval.wf(),
        shift_fits(a, cval),
    ensures
        r.shape@ == a.shape@,
        r.den == a.den * cval.den,
        r.num@ == shift_nums(
            a.num@,
            a.shape@.last() as int,
            offset as int,
            (cval.num * a.den) as u64,
            cval.den,
        ),
        r.wf(),
{
    let n_axes = a.shape.len();
    let e = a.shape[n_axes - 1];
    let total = a.num.len();
    let k = offset;
    let fill = cval.num * a.den;
    let ghost rows_g: int = prod_of(a.shape@.drop_last());
    proof {
        lemma_prod_nonneg(a.shape@.drop_last());
        assert(a.den * cval.den >= 1) by (nonlinear_arith)
            requires
                a.den >= 1,
                cval.den >= 1,
        ;
    }
    let mut out: Vec<u64> = Vec::new();
    let mut o: usize = 0;
    while o < total
        invariant
            a.wf(),
            a.shape@.len() > 0,
            e == a.shape@.last(),
            k == offset,
            k < e,
            total == a.num@.len(),
            total == rows_g * e,
            rows_g >= 0,
            fill == cval.num * a.den,
            shift_fits(a, cval),
            o <= total,
            out@.len() == o,
            forall|oo: int|
                0 <= oo < out@.len() ==> out@[oo] == shift_nums(
                    a.num@,
                    e as int,
                    k as int,
                    fill,
                    cval.den,
                )[oo],
        decreases total - o,
    {
        proof {
            lemma_flat_index(o as int, e as int, rows_g);
        }
        let col = o % e;
        if col < k {
            out.push(fill);
        } else {
            let v = a.num[o - k];
            out.push(v * cval.den);
        }
        o += 1;
    }
    proof {
        assert(out@ =~= shift_nums(a.num@, e as int, k as int, fill, cval.den));
    }
    Distribution { shape: a.shape, num: out, den: a.den * cval.den }
}

/// Translates `array` by `offset` cells along its trailing axis under the
/// given boundary mode, leaving every other axis in place. Rejects an offset
/// that does not fit the trailing axis (or an array with no axes) with a
/// `DimensionError`; `offset == 0` is the identity in both modes.
///
/// Under `Wrap` the result is a pure permutation of the input cells, so
/// total mass is conserved exactly. Under `Constant` each row's first
/// `offset` cells hold exactly the fill mass `cval`.
pub fn translate(array: Distribution, offset: usize, mode: PDMode) -> (r: Result<
    Distribution,
    DimensionError,
>)
    requires
        array.wf(),
        mode_wf(mode),
        mode matches PDMode::Constant { cval } ==> shift_fits(array, cval),
    ensures
        r is Err <==> !translate_ok(array, offset as int),
        r matches Ok(t) ==> t.shape@ == array.shape@ && t.wf(),
        r matches Ok(t) ==> match mode {
            PDMode::Wrap => {
                &&& t.den == array.den
                &&& t.num@ == wrap_nums(array.num@, array.shape@.last() as int, offset as int)
                &&& mass_total(t.num@) == mass_total(array.num@)
            },
            PDMode::Constant { cval } => {
                &&& t.den == array.den * cval.den
                &&& t.num@ == shift_nums(
                    array.num@,
                    array.shape@.last() as int,
                    offset as int,
                    (cval.num * array.den) as u64,
                    cval.den,
                )
                &&& forall|o: int|
                    0 <= o < t.num@.len() && o % (array.shape@.last() as int) < offset
                        ==> (#[trigger] t.num@[o]) * cval.den == cval.num * t.den
            },
        },
{
    let n_axes = array.shape.len();
    if n_axes == 0 {
        return Err(DimensionError);
    }
    let e = array.shape[n_axes - 1];
    if offset >= e {
        return Err(DimensionError);
    }
    match mode {
        PDMode::Wrap => Ok(roll(array, offset)),
        PDMode::Constant { cval } => {
            let ghost arr = array;
            let t = shift(array, offset, cval);
            proof {
                let ghost ee = arr.shape@.last() as int;
                let ghost fill = (cval.num * arr.den) as u64;
                assert forall|o: int|
                    0 <= o < t.num@.len() && o % ee < offset implies (#[trigger] t.num@[o])
                    * cval.den == cval.num * t.den by {
                    assert(t.num@[o] == fill);
                    assert((cval.num * array.den) * cval.den == cval.num * (array.den
                        * cval.den)) by (nonlinear_arith);
                }
            }
            Ok(t)
        },
    }
}

/// A wrap translation by offset zero moves nothing: every cell keeps its
/// numerator.
pub proof fn lemma_wrap_identity(s: Seq<u64>, e: int)
    requires
        e >= 1,
    ensures
        wrap_nums(s, e, 0) == s,
{
    assert forall|o: int| 0 <= o < s.len() implies wrap_nums(s, e, 0)[o] == s[o] by {
        lemma_fundamental_div_mod(o, e);
        assert(0 <= o % e && (o / e) * e + o % e == o) by (nonlinear_arith)
            requires
                e >= 1,
                0 <= o,
                o == e * (o / e) + (o % e),
        ;
    }
    assert(wrap_nums(s, e, 0) =~= s);
}

/// Law: wrap translation is a bijection on cells. Translating a well-formed
/// distribution by `k` and then by `extent - k` under the wrap boundary
/// restores every numerator exactly, for `0 < k < extent` (at `k == 0` the
/// complementary offset would equal the extent, which translation rejects;
/// there the first translation is already the identity).
pub proof fn lemma_wrap_round_trip(d: Distribution, k: int)
    requires
        d.wf(),
        d.shape@.len() > 0,
        0 < k < d.shape@.last(),
    ensures
        wrap_nums(wrap_nums(d.num@, d.shape@.last() as int, k), d.shape@.last() as int, (
        d.shape@.last() - k) as int) == d.num@,
{
    let e = d.shape@.last() as int;
    let s = d.num@;
    let t = wrap_nums(s, e, k);
    let u = wrap_nums(t, e, e - k);
    let rows = prod_of(d.shape@.drop_last());
    lemma_prod_nonneg(d.shape@.drop_last());
    assert forall|o: int| 0 <= o < s.len() implies u[o] == s[o] by {
        lemma_flat_index(o, e, rows);
        let r = o / e;
        let j = o % e;
        let col1 = wrap_src_col(j, e, e - k);
        let p = r * e + col1;
        assert(0 <= col1 < e);
        lemma_fundamental_div_mod_converse_div(p, e, r, col1);
        lemma_fundamental_div_mod_converse_mod(p, e, r, col1);
        assert(wrap_src_col(col1, e, k) == j);
        assert(u[o] == t[p] && t[p] == s[wrap_src(p, e, k)]);
    }
    assert(u =~= s);
}

} // verus!
