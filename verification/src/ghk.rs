//! Gain configuration of the g-h-k family of linear recursive estimators,
//! held as exact rationals. The estimators' own recurrences live with their
//! callers; this module carries the gains they are configured with.

use vstd::prelude::*;

use crate::dist::Mass;

verus! {

/// The three gains of a g-h-k filter: `g` weighs the residual into the
/// position estimate, `h` into the velocity estimate and `k` into the
/// acceleration estimate.
#[derive(Clone, Copy, Debug, PartialEq, Eq, Structural)]
pub struct GHKFilterConfig {
    pub g: Mass,
    pub h: Mass,
    pub k: Mass,
}

/// Gains that make an order-1 g-h filter compute a least-squares fit for
/// the measurement at index `n` (counting from zero), held exactly:
/// `g = 2(2n + 1) / ((n + 2)(n + 1))` and `h = 6 / ((n + 2)(n + 1))`, with
/// no acceleration gain.
pub fn least_squares_parameters(n: u64) -> (c: GHKFilterConfig)
    requires
        (n + 2) * (n + 1) <= u64::MAX,
    ensures
        c.g.num == 2 * (2 * n + 1),
        c.g.den == (n + 2) * (n + 1),
        c.h.num == 6,
        c.h.den == (n + 2) * (n + 1),
        c.k.num == 0,
        c.k.den == 1,
        c.g.wf() && c.h.wf() && c.k.wf(),
{
    proof {
        assert((n + 2) * (n + 1) >= 4 * n + 2 && (n + 2) * (n + 1) >= n + 2) by (nonlinear_arith)
            requires
                n >= 0,
        ;
    }
    let den = (n + 2) * (n + 1);
    GHKFilterConfig {
        g: Mass { num: 2 * (2 * n + 1), den },
        h: Mass { num: 6, den },
        k: Mass { num: 0, den: 1 },
    }
}

} // verus!
