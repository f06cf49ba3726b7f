//! The swap calculator: reserve updates and trade amounts under a
//! reserve-invariant curve with fee retention and pool-favored rounding.

use vstd::arithmetic::div_mod::{
    lemma_div_by_multiple, lemma_div_is_ordered, lemma_div_pos_is_pos, lemma_fundamental_div_mod,
};
use vstd::prelude::*;

use crate::decimal::{decimal_to_fixed_val, Decimal};
use crate::error::MathError;
use crate::fixed::{
    ceil_frac, fp_of, lemma_fp_of_own_val, lemma_pn_mul_in_range, p256, pn_mul, FixedPoint, HALF,
    ONE,
};
use crate::swap_result::SwapResult;

verus! {

/// A stateless swap computation over a pool's configuration: the two
/// reserve balances, the compensation parameter, the reference price, and
/// the fee ratio, all normalized to the engine's twelve-digit scale.
///
/// The conserved quantity of the curve is the constant product of the two
/// reserves, computed by [`SwapCalculator::compute_k`]; the compensation
/// parameter and the reference price are carried as configured correction
/// terms for the wider protocol and do not enter the conserved quantity on
/// this curve.
#[derive(Clone, Copy, Debug, PartialEq, Eq, Structural)]
pub struct SwapCalculator {
    /// Source reserve at the time of construction.
    pub x0: FixedPoint,
    /// Destination reserve at the time of construction.
    pub y0: FixedPoint,
    /// Pool-configured compensation parameter.
    pub c: FixedPoint,
    /// Externally supplied reference price.
    pub i: FixedPoint,
    /// Fee ratio retained by the pool on each trade's input.
    pub fee: FixedPoint,
}

/// Every intermediate value of one swap computation, or the error on which
/// it stops, in the order the steps run: the fee on the input amount `dx`,
/// the net input, the invariant of `x0` and `y0`, the net new source
/// reserve, the ceiling-rounded new destination reserve, and the gross new
/// source reserve. On success the tuple holds `(k, x_new, y_new, delta_x,
/// delta_y)`.
pub open spec fn swap_steps(x0: int, y0: int, fee: int, dx: int) -> Result<
    (int, int, int, int, int),
    MathError,
> {
    match pn_mul(dx, fee) {
        None => Err(MathError::Overflow),
        Some(fee_amount) => {
            if dx < fee_amount {
                Err(MathError::Underflow)
            } else {
                let dx_net = dx - fee_amount;
                match pn_mul(x0, y0) {
                    None => Err(MathError::Overflow),
                    Some(k) => {
                        if x0 + dx_net >= p256() {
                            Err(MathError::Overflow)
                        } else {
                            let x_net = x0 + dx_net;
                            if x_net == 0 {
                                Err(MathError::DivisionByZero)
                            } else if k * ONE >= p256() {
                                Err(MathError::Overflow)
                            } else {
                                let y_new = ceil_frac(k * ONE, x_net);
                                if y0 < y_new {
                                    Err(MathError::Underflow)
                                } else if x0 + dx >= p256() {
                                    Err(MathError::Overflow)
                                } else {
                                    Ok((k, x0 + dx, y_new, dx, y0 - y_new))
                                }
                            }
                        }
                    },
                }
            }
        },
    }
}

/// Maps the step values of a source-to-destination swap onto a result.
pub open spec fn swap_result_of(t: (int, int, int, int, int)) -> SwapResult {
    (SwapResult {
        k: fp_of(t.0),
        x_new: fp_of(t.1),
        y_new: fp_of(t.2),
        delta_x: fp_of(t.3),
        delta_y: fp_of(t.4),
    })
}

/// Maps the step values of a destination-to-source swap onto a result: the
/// roles of the two reserves are mirrored back.
pub open spec fn swap_result_of_mirrored(t: (int, int, int, int, int)) -> SwapResult {
    (SwapResult {
        k: fp_of(t.0),
        x_new: fp_of(t.2),
        y_new: fp_of(t.1),
        delta_x: fp_of(t.4),
        delta_y: fp_of(t.3),
    })
}

impl SwapCalculator {
    /// Builds a calculator from the pool's decimal-scaled configuration,
    /// normalizing every quantity to the engine's twelve-digit scale; the
    /// first conversion to fail decides the error.
    pub fn new(x0: Decimal, y0: Decimal, c: Decimal, i: Decimal, fee: Decimal) -> (r: Result<
        SwapCalculator,
        MathError,
    >)
        ensures
            r == (match decimal_to_fixed_val(x0.value as int, x0.scale as nat) {
                Err(e) => Err::<SwapCalculator, MathError>(e),
                Ok(x0v) => match decimal_to_fixed_val(y0.value as int, y0.scale as nat) {
                    Err(e) => Err::<SwapCalculator, MathError>(e),
                    Ok(y0v) => match decimal_to_fixed_val(c.value as int, c.scale as nat) {
                        Err(e) => Err::<SwapCalculator, MathError>(e),
                        Ok(cv) => match decimal_to_fixed_val(i.value as int, i.scale as nat) {
                            Err(e) => Err::<SwapCalculator, MathError>(e),
                            Ok(iv) => match decimal_to_fixed_val(
                                fee.value as int,
                                fee.scale as nat,
                            ) {
                                Err(e) => Err::<SwapCalculator, MathError>(e),
                                Ok(feev) => Ok::<SwapCalculator, MathError>(
                                    (SwapCalculator {
                                        x0: (FixedPoint { hi: 0, lo: x0v as u128 }),
                                        y0: (FixedPoint { hi: 0, lo: y0v as u128 }),
                                        c: (FixedPoint { hi: 0, lo: cv as u128 }),
                                        i: (FixedPoint { hi: 0, lo: iv as u128 }),
                                        fee: (FixedPoint { hi: 0, lo: feev as u128 }),
                                    }),
                                ),
                            },
                        },
                    },
                },
            }),
    {
        let x0f = match x0.into_fixed() {
            Ok(v) => v,
            Err(e) => {
                return Err(e);
            },
        };
        let y0f = match y0.into_fixed() {
            Ok(v) => v,
            Err(e) => {
                return Err(e);
            },
        };
        let cf = match c.into_fixed() {
            Ok(v) => v,
            Err(e) => {
                return Err(e);
            },
        };
        let fi = match i.into_fixed() {
            Ok(v) => v,
            Err(e) => {
                return Err(e);
            },
        };
        let feef = match fee.into_fixed() {
            Ok(v) => v,
            Err(e) => {
                return Err(e);
            },
        };
        Ok(SwapCalculator { x0: x0f, y0: y0f, c: cf, i: fi, fee: feef })
    }

    /// The curve's conserved quantity for the constructed reserves: their
    /// fixed-point product.
    pub fn compute_k(&self) -> (r: Result<FixedPoint, MathError>)
        ensures
            r == (match pn_mul(self.x0.val(), self.y0.val()) {
                Some(v) => Ok::<FixedPoint, MathError>(fp_of(v)),
                None => Err::<FixedPoint, MathError>(MathError::Overflow),
            }),
    {
        self.x0.checked_mul(&self.y0)
    }

    /// Swaps `delta_x` of the source token for the destination token.
    ///
    /// The pool retains the fee on the input; the curve is evaluated on the
    /// net input while the source vault receives the gross amount, and the
    /// new destination reserve is rounded up in the pool's favor. Fails
    /// exactly as the conversion of `delta_x` and then [`swap_steps`] state.
    pub fn swap_x_to_y_amm(&self, delta_x: &Decimal) -> (r: Result<SwapResult, MathError>)
        ensures
            r == (match decimal_to_fixed_val(delta_x.value as int, delta_x.scale as nat) {
                Err(e) => Err::<SwapResult, MathError>(e),
                Ok(dxv) => match swap_steps(self.x0.val(), self.y0.val(), self.fee.val(), dxv) {
                    Err(e) => Err::<SwapResult, MathError>(e),
                    Ok(t) => Ok::<SwapResult, MathError>(swap_result_of(t)),
                },
            }),
    {
        let dx = match delta_x.into_fixed() {
            Ok(v) => v,
            Err(e) => {
                return Err(e);
            },
        };
        match self.swap_steps_exec(&self.x0, &self.y0, &dx) {
            Ok(t) => Ok(SwapResult { k: t.0, x_new: t.1, y_new: t.2, delta_x: t.3, delta_y: t.4 }),
            Err(e) => Err(e),
        }
    }

    /// Swaps `delta_y` of the destination token for the source token: the
    /// mirror image of [`SwapCalculator::swap_x_to_y_amm`], with the roles
    /// of the two reserves exchanged.
    pub fn swap_y_to_x_amm(&self, delta_y: &Decimal) -> (r: Result<SwapResult, MathError>)
        ensures
            r == (match decimal_to_fixed_val(delta_y.value as int, delta_y.scale as nat) {
                Err(e) => Err::<SwapResult, MathError>(e),
                Ok(dyv) => match swap_steps(self.y0.val(), self.x0.val(), self.fee.val(), dyv) {
                    Err(e) => Err::<SwapResult, MathError>(e),
                    Ok(t) => Ok::<SwapResult, MathError>(swap_result_of_mirrored(t)),
                },
            }),
    {
        let dy = match delta_y.into_fixed() {
            Ok(v) => v,
            Err(e) => {
                return Err(e);
            },
        };
        match self.swap_steps_exec(&self.y0, &self.x0, &dy) {
            Ok(t) => Ok(SwapResult { k: t.0, x_new: t.2, y_new: t.1, delta_x: t.4, delta_y: t.3 }),
            Err(e) => Err(e),
        }
    }

    /// Runs the swap steps from the paying reserve `from0` into the paid
    /// reserve `to0` for the input `input`, returning `(k, from_new,
    /// to_new, input, output)`.
    #[verifier::rlimit(100)]
    fn swap_steps_exec(&self, from0: &FixedPoint, to0: &FixedPoint, input: &FixedPoint) -> (r:
        Result<(FixedPoint, FixedPoint, FixedPoint, FixedPoint, FixedPoint), MathError>)
        ensures
            r == (match swap_steps(from0.val(), to0.val(), self.fee.val(), input.val()) {
                Err(e) => Err::<
                    (FixedPoint, FixedPoint, FixedPoint, FixedPoint, FixedPoint),
                    MathError,
                >(e),
                Ok(t) => Ok::<(FixedPoint, FixedPoint, FixedPoint, FixedPoint, FixedPoint), MathError>(
                    (fp_of(t.0), fp_of(t.1), fp_of(t.2), fp_of(t.3), fp_of(t.4)),
                ),
            }),
    {
        let ghost x0v = from0.val();
        let ghost y0v = to0.val();
        let ghost feev = self.fee.val();
        let ghost dxv = input.val();
        let ghost steps = swap_steps(x0v, y0v, feev, dxv);
        let fee_amount = match input.checked_mul(&self.fee) {
            Ok(v) => v,
            Err(e) => {
                proof {
                    assert(steps == Err::<(int, int, int, int, int), MathError>(e));
                }
                return Err(e);
            },
        };
        proof {
            assert(fee_amount.val() == pn_mul(dxv, feev)->Some_0);
        }
        let input_net = match input.checked_sub(&fee_amount) {
            Ok(v) => v,
            Err(e) => {
                proof {
                    assert(steps == Err::<(int, int, int, int, int), MathError>(e));
                }
                return Err(e);
            },
        };
        let k = match from0.checked_mul(to0) {
            Ok(v) => v,
            Err(e) => {
                proof {
                    assert(steps == Err::<(int, int, int, int, int), MathError>(e));
                }
                return Err(e);
            },
        };
        proof {
            assert(k.val() == pn_mul(x0v, y0v)->Some_0);
        }
        let from_net = match from0.checked_add(&input_net) {
            Ok(v) => v,
            Err(e) => {
                proof {
                    assert(steps == Err::<(int, int, int, int, int), MathError>(e));
                }
                return Err(e);
            },
        };
        proof {
            assert(from_net.val() == x0v + (dxv - pn_mul(dxv, feev)->Some_0));
        }
        let to_new = match k.checked_div_ceil(&from_net) {
            Ok(v) => v,
            Err(e) => {
                proof {
                    assert(steps == Err::<(int, int, int, int, int), MathError>(e));
                }
                return Err(e);
            },
        };
        proof {
            assert(to_new.val() == ceil_frac(k.val() * ONE, from_net.val()));
        }
        let output = match to0.checked_sub(&to_new) {
            Ok(v) => v,
            Err(e) => {
                proof {
                    assert(steps == Err::<(int, int, int, int, int), MathError>(e));
                }
                return Err(e);
            },
        };
        let from_new = match from0.checked_add(input) {
            Ok(v) => v,
            Err(e) => {
                proof {
                    assert(steps == Err::<(int, int, int, int, int), MathError>(e));
                }
                return Err(e);
            },
        };
        proof {
            assert(steps == Ok::<(int, int, int, int, int), MathError>(
                (k.val(), from_new.val(), to_new.val(), input.val(), output.val()),
            ));
            lemma_fp_of_own_val(*input);
            lemma_fp_of_own_val(k);
            lemma_fp_of_own_val(from_new);
            lemma_fp_of_own_val(to_new);
            lemma_fp_of_own_val(output);
        }
        Ok((k, from_new, to_new, input.clone(), output))
    }
}

/// The pool never loses aggregate value across a swap: whenever the swap
/// steps succeed, the invariant recomputed from the post-trade reserves
/// (the fixed-point product the engine would form from them) is at least
/// the pre-trade invariant `k`. This holds for every non-negative fee
/// ratio, because the gross input is never below the net input that the
/// curve was evaluated on and the new destination reserve is rounded up.
pub proof fn lemma_swap_preserves_invariant(x0: int, y0: int, fee: int, dx: int)
    requires
        0 <= x0,
        0 <= y0,
        0 <= fee,
        0 <= dx,
        swap_steps(x0, y0, fee, dx) is Ok,
    ensures
        ({
            let t = swap_steps(x0, y0, fee, dx)->Ok_0;
            (t.1 * t.2 + HALF) / (ONE as int) >= t.0
        }),
{
    let t = swap_steps(x0, y0, fee, dx)->Ok_0;
    lemma_pn_mul_in_range(dx, fee);
    lemma_pn_mul_in_range(x0, y0);
    let fee_amount = pn_mul(dx, fee)->Some_0;
    let dx_net = dx - fee_amount;
    let k = pn_mul(x0, y0)->Some_0;
    let x_net = x0 + dx_net;
    let q = (k * ONE) / x_net;
    let rem = (k * ONE) % x_net;
    let y_new = ceil_frac(k * ONE, x_net);
    assert(k * ONE >= 0) by (nonlinear_arith)
        requires
            k >= 0,
    ;
    lemma_fundamental_div_mod(k * ONE, x_net);
    lemma_div_pos_is_pos(k * ONE, x_net);
    assert(y_new * x_net >= k * ONE) by (nonlinear_arith)
        requires
            k * ONE == x_net * q + rem,
            0 <= rem < x_net,
            y_new == (if rem == 0 {
                q
            } else {
                q + 1
            }),
    ;
    assert(t.1 * t.2 >= y_new * x_net) by (nonlinear_arith)
        requires
            t.1 >= x_net,
            t.2 == y_new,
            y_new >= 0,
            x_net >= 0,
            t.1 * t.2 == t.1 * y_new,
    ;
    lemma_div_is_ordered(k * ONE, t.1 * t.2 + HALF, ONE as int);
    lemma_div_by_multiple(k, ONE as int);
}

} // verus!
