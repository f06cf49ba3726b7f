//! Token amounts at a caller-chosen decimal scale.
//!
//! A [`Decimal`] holds an unsigned integer together with the count of
//! fractional decimal digits it carries. Arithmetic between two decimals
//! first aligns their scales by rescaling the lower-scale operand up, and a
//! decimal at the engine's normalized twelve-digit scale converts directly
//! into a [`FixedPoint`].

use vstd::arithmetic::div_mod::{lemma_div_pos_is_pos, lemma_fundamental_div_mod};
use vstd::prelude::*;

use crate::error::MathError;
use crate::fixed::{FixedPoint, ONE};

verus! {

/// The engine's normalized scale: twelve fractional decimal digits.
pub const NORMALIZED_SCALE: u8 = 12;

/// `10^e`.
pub open spec fn pow10(e: nat) -> nat
    decreases e,
{
    if e == 0 {
        1
    } else {
        10 * pow10((e - 1) as nat)
    }
}

/// Powers of ten do not shrink as the exponent grows.
pub proof fn lemma_pow10_increases(a: nat, b: nat)
    requires
        a <= b,
    ensures
        pow10(a) <= pow10(b),
        pow10(a) >= 1,
    decreases b,
{
    if b > 0 {
        if a <= b - 1 {
            lemma_pow10_increases(a, (b - 1) as nat);
        } else {
            lemma_pow10_increases((a - 1) as nat, (b - 1) as nat);
        }
    }
}

/// An unsigned token amount `value` carrying `scale` fractional decimal
/// digits, standing for the real number `value / 10^scale`.
#[derive(Clone, Copy, Debug, PartialEq, Eq, Structural)]
pub struct Decimal {
    /// The raw integer amount.
    pub value: u128,
    /// How many of the amount's low decimal digits are fractional.
    pub scale: u8,
}

/// `10^e` if it fits a `u128`, and `None` otherwise.
fn pow10_checked(e: u8) -> (r: Option<u128>)
    ensures
        r == (if pow10(e as nat) <= u128::MAX {
            Some(pow10(e as nat) as u128)
        } else {
            None::<u128>
        }),
{
    let mut result: u128 = 1;
    let mut i: u8 = 0;
    while i < e
        invariant
            i <= e,
            result == pow10(i as nat),
        decreases e - i,
    {
        result = match result.checked_mul(10) {
            Some(next) => next,
            None => {
                proof {
                    lemma_pow10_increases((i + 1) as nat, e as nat);
                }
                return None;
            },
        };
        i = i + 1;
    }
    Some(result)
}

impl Decimal {
    /// The decimal holding the raw amount `amount` at `scale` fractional
    /// digits.
    pub fn from_scaled_amount(amount: u64, scale: u8) -> (r: Decimal)
        ensures
            r.value == amount,
            r.scale == scale,
    {
        Decimal { value: amount as u128, scale }
    }

    /// The same quantity carried at the higher scale `new_scale`:
    /// the value gains one zero digit per added fractional digit.
    ///
    /// `Unrepresentable` when `new_scale` is below the current scale (a
    /// rescale never discards digits), `Overflow` exactly when the widened
    /// value leaves the `u128` range.
    pub fn to_scale(&self, new_scale: u8) -> (r: Result<Decimal, MathError>)
        ensures
            new_scale < self.scale ==> r == Err::<Decimal, MathError>(MathError::Unrepresentable),
            new_scale >= self.scale ==> r == (
            if pow10((new_scale - self.scale) as nat) <= u128::MAX && self.value * pow10(
                (new_scale - self.scale) as nat,
            ) <= u128::MAX {
                Ok::<Decimal, MathError>(
                    (Decimal {
                        value: (self.value * pow10((new_scale - self.scale) as nat)) as u128,
                        scale: new_scale,
                    }),
                )
            } else {
                Err::<Decimal, MathError>(MathError::Overflow)
            }),
    {
        if new_scale < self.scale {
            return Err(MathError::Unrepresentable);
        }
        let multiplier = match pow10_checked(new_scale - self.scale) {
            Some(m) => m,
            None => {
                return Err(MathError::Overflow);
            },
        };
        match self.value.checked_mul(multiplier) {
            Some(widened) => Ok(Decimal { value: widened, scale: new_scale }),
            None => Err(MathError::Overflow),
        }
    }

    /// The fixed-point number equal to this quantity, which must carry at
    /// most the normalized twelve-digit scale; `Overflow` exactly when the
    /// rescaled amount leaves the `u128` range.
    pub fn into_fixed(&self) -> (r: Result<FixedPoint, MathError>)
        ensures
            r == (match decimal_to_fixed_val(self.value as int, self.scale as nat) {
                Ok(v) => Ok::<FixedPoint, MathError>((FixedPoint { hi: 0, lo: v as u128 })),
                Err(e) => Err::<FixedPoint, MathError>(e),
            }),
    {
        proof {
            reveal_with_fuel(pow10, 13);
            if self.scale <= NORMALIZED_SCALE {
                lemma_pow10_increases(
                    (NORMALIZED_SCALE - self.scale) as nat,
                    NORMALIZED_SCALE as nat,
                );
            }
        }
        match self.to_scale(NORMALIZED_SCALE) {
            Ok(normalized) => Ok(FixedPoint { hi: 0, lo: normalized.value }),
            Err(e) => Err(e),
        }
    }

    /// The quotient of the two quantities at their aligned scale, rounded
    /// down: each operand is first rescaled up to the higher of the two
    /// scales, and the division then scales its numerator so the result
    /// carries that scale too.
    ///
    /// Fails exactly as [`decimal_div_val`] states: `Overflow` when an
    /// alignment or the scaled numerator leaves `u128`, `DivisionByZero` on
    /// a zero divisor.
    pub fn div(&self, rhs: &Decimal) -> (r: Result<Decimal, MathError>)
        ensures
            r == (match decimal_div_val(
                self.value as int,
                self.scale as nat,
                rhs.value as int,
                rhs.scale as nat,
            ) {
                Ok(v) => Ok::<Decimal, MathError>(
                    (Decimal {
                        value: v as u128,
                        scale: (if self.scale >= rhs.scale {
                            self.scale
                        } else {
                            rhs.scale
                        }),
                    }),
                ),
                Err(e) => Err::<Decimal, MathError>(e),
            }),
    {
        let common = if self.scale >= rhs.scale {
            self.scale
        } else {
            rhs.scale
        };
        let lhs_aligned = match self.to_scale(common) {
            Ok(a) => a,
            Err(e) => {
                return Err(e);
            },
        };
        let rhs_aligned = match rhs.to_scale(common) {
            Ok(a) => a,
            Err(e) => {
                return Err(e);
            },
        };
        if rhs_aligned.value == 0 {
            return Err(MathError::DivisionByZero);
        }
        let scaler = match pow10_checked(common) {
            Some(m) => m,
            None => {
                return Err(MathError::Overflow);
            },
        };
        let numerator = match lhs_aligned.value.checked_mul(scaler) {
            Some(n) => n,
            None => {
                return Err(MathError::Overflow);
            },
        };
        proof {
            lemma_div_pos_is_pos(numerator as int, rhs_aligned.value as int);
            lemma_fundamental_div_mod(numerator as int, rhs_aligned.value as int);
            assert((rhs_aligned.value as int) * ((numerator as int) / (rhs_aligned.value as int))
                <= numerator) by (nonlinear_arith)
                requires
                    numerator as int == (rhs_aligned.value as int) * ((numerator as int) / (
                    rhs_aligned.value as int)) + (numerator as int) % (rhs_aligned.value as int),
                    0 <= (numerator as int) % (rhs_aligned.value as int),
            ;
            assert((numerator as int) / (rhs_aligned.value as int) <= (rhs_aligned.value as int) * (
            (numerator as int) / (rhs_aligned.value as int))) by (nonlinear_arith)
                requires
                    rhs_aligned.value >= 1,
                    0 <= (numerator as int) / (rhs_aligned.value as int),
            ;
        }
        Ok(Decimal { value: numerator / rhs_aligned.value, scale: common })
    }
}

/// The scaled magnitude that [`Decimal::into_fixed`] produces for a raw
/// amount `value` at `scale` fractional digits, with the exact failure
/// conditions.
pub open spec fn decimal_to_fixed_val(value: int, scale: nat) -> Result<int, MathError> {
    if scale > NORMALIZED_SCALE {
        Err(MathError::Unrepresentable)
    } else if value * pow10((NORMALIZED_SCALE - scale) as nat) <= u128::MAX {
        Ok(value * pow10((NORMALIZED_SCALE - scale) as nat))
    } else {
        Err(MathError::Overflow)
    }
}

/// The raw result of dividing two decimals at their aligned scale, with
/// the exact failure conditions in the order the division meets them.
pub open spec fn decimal_div_val(lv: int, ls: nat, rv: int, rs: nat) -> Result<int, MathError> {
    let common = if ls >= rs {
        ls
    } else {
        rs
    };
    let la = lv * pow10((common - ls) as nat);
    let ra = rv * pow10((common - rs) as nat);
    if pow10((common - ls) as nat) > u128::MAX || la > u128::MAX {
        Err(MathError::Overflow)
    } else if pow10((common - rs) as nat) > u128::MAX || ra > u128::MAX {
        Err(MathError::Overflow)
    } else if ra == 0 {
        Err(MathError::DivisionByZero)
    } else if pow10(common) > u128::MAX {
        Err(MathError::Overflow)
    } else if la * pow10(common) > u128::MAX {
        Err(MathError::Overflow)
    } else {
        Ok((la * pow10(common)) / ra)
    }
}

} // verus!
