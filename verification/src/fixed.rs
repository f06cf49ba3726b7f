//! Unsigned fixed-point numbers with twelve decimal digits of precision.
//!
//! A [`FixedPoint`] stores a non-negative real number as a 256-bit integer
//! magnitude scaled by [`ONE`] (`10^12`). The magnitude is held as two
//! 128-bit halves, so every contract can speak of the mathematical value
//! directly. The 256-bit arithmetic itself is delegated to
//! `spl_math::precise_number::PreciseNumber`, behind trusted wrappers whose
//! contracts state exactly what that crate's source computes; everything
//! layered on top of the wrappers is verified.

use vstd::arithmetic::div_mod::{
    lemma_div_by_multiple, lemma_div_is_ordered, lemma_div_nonincreasing, lemma_div_pos_is_pos,
    lemma_fundamental_div_mod, lemma_fundamental_div_mod_converse,
};
use vstd::prelude::*;

use spl_math::precise_number::PreciseNumber;
use spl_math::uint::U256;

use crate::error::MathError;

verus! {

/// The representation of the number one: `10^12` fixed-point units.
pub const ONE: u128 = 1_000_000_000_000;

/// Half of [`ONE`], the rounding correction that the backing crate adds
/// before truncating divisions.
pub const HALF: u128 = 500_000_000_000;

/// `2^128`, the weight of the high half of a magnitude.
pub open spec fn p128() -> int {
    0x100000000000000000000000000000000int
}

/// `2^256`, one past the largest representable magnitude.
pub open spec fn p256() -> int {
    0x10000000000000000000000000000000000000000000000000000000000000000int
}

/// An unsigned fixed-point number: the non-negative real value
/// `(hi * 2^128 + lo) / 10^12`.
#[derive(Clone, Copy, Debug, PartialEq, Eq, Structural)]
pub struct FixedPoint {
    /// High 128 bits of the scaled magnitude.
    pub hi: u128,
    /// Low 128 bits of the scaled magnitude.
    pub lo: u128,
}

/// The fixed-point number whose scaled magnitude is `v`.
pub open spec fn fp_of(v: int) -> FixedPoint {
    (FixedPoint { hi: (v / p128()) as u128, lo: (v % p128()) as u128 })
}

impl FixedPoint {
    /// The scaled magnitude as a mathematical integer.
    pub open spec fn val(&self) -> int {
        self.hi * p128() + self.lo
    }
}

/// `fp_of` inverts `val` on the representable range.
pub proof fn lemma_fp_of_val(v: int)
    requires
        0 <= v < p256(),
    ensures
        fp_of(v).val() == v,
{
    lemma_fundamental_div_mod(v, p128());
    lemma_div_is_ordered(v, p256() - 1, p128());
}

/// A magnitude determines its halves.
pub proof fn lemma_fp_of_own_val(a: FixedPoint)
    ensures
        fp_of(a.val()) == a,
{
    lemma_fundamental_div_mod_converse(a.val(), p128(), a.hi as int, a.lo as int);
}

/// Round trip: a fixed-point number constructed from the plain integer `x`
/// narrows back to `x` with no loss, both under the half-unit-biased
/// narrowing of [`FixedPoint::to_imprecise`] (whose result on the magnitude
/// `x * ONE` is the first quotient here) and under the floor narrowing of
/// [`FixedPoint::floor_u64`] (the second).
pub proof fn lemma_int_narrowing_round_trip(x: u128)
    ensures
        (x * ONE + HALF) / (ONE as int) == x,
        (x * ONE) / (ONE as int) == x,
{
    lemma_fundamental_div_mod_converse(x * ONE + HALF, ONE as int, x as int, HALF as int);
    lemma_div_by_multiple(x as int, ONE as int);
}

/// Relies on `spl_math::precise_number::PreciseNumber::new`: the result's
/// inner value is the argument times `ONE`, which never overflows 256 bits.
#[verifier::external_body]
fn pn_new_raw(x: u128) -> (r: FixedPoint)
    ensures
        r == fp_of(x * ONE),
{
    let p = PreciseNumber::new(x).unwrap();
    FixedPoint { hi: (p.value >> 128).as_u128(), lo: p.value.low_u128() }
}

/// Relies on `spl_math::precise_number::PreciseNumber::checked_add`: the
/// inner values are added, with `None` exactly on 256-bit overflow.
#[verifier::external_body]
fn pn_add_raw(a: &FixedPoint, b: &FixedPoint) -> (r: Option<FixedPoint>)
    ensures
        r == (if a.val() + b.val() < p256() {
            Some(fp_of(a.val() + b.val()))
        } else {
            None::<FixedPoint>
        }),
{
    let pa = PreciseNumber { value: (U256::from(a.hi) << 128) | U256::from(a.lo) };
    let pb = PreciseNumber { value: (U256::from(b.hi) << 128) | U256::from(b.lo) };
    pa.checked_add(&pb).map(|c| FixedPoint { hi: (c.value >> 128).as_u128(), lo: c.value.low_u128() })
}

/// Relies on `spl_math::precise_number::PreciseNumber::checked_sub`: the
/// inner values are subtracted, with `None` exactly on underflow.
#[verifier::external_body]
fn pn_sub_raw(a: &FixedPoint, b: &FixedPoint) -> (r: Option<FixedPoint>)
    ensures
        r == (if a.val() >= b.val() {
            Some(fp_of(a.val() - b.val()))
        } else {
            None::<FixedPoint>
        }),
{
    let pa = PreciseNumber { value: (U256::from(a.hi) << 128) | U256::from(a.lo) };
    let pb = PreciseNumber { value: (U256::from(b.hi) << 128) | U256::from(b.lo) };
    pa.checked_sub(&pb).map(|c| FixedPoint { hi: (c.value >> 128).as_u128(), lo: c.value.low_u128() })
}

impl FixedPoint {
    /// The fixed-point number equal to the plain integer `x`.
    pub fn new(x: u128) -> (r: FixedPoint)
        ensures
            r.val() == x * ONE,
    {
        proof {
            lemma_fp_of_val(x * ONE);
        }
        pn_new_raw(x)
    }

    /// The fixed-point number with scaled magnitude `raw`, that is the real
    /// value `raw / 10^12`.
    pub fn from_raw(raw: u128) -> (r: FixedPoint)
        ensures
            r.val() == raw,
    {
        FixedPoint { hi: 0, lo: raw }
    }

    /// Exact addition; `Overflow` exactly when the sum exceeds 256 bits.
    pub fn checked_add(&self, rhs: &FixedPoint) -> (r: Result<FixedPoint, MathError>)
        ensures
            r == (if self.val() + rhs.val() < p256() {
                Ok::<FixedPoint, MathError>(fp_of(self.val() + rhs.val()))
            } else {
                Err::<FixedPoint, MathError>(MathError::Overflow)
            }),
            r is Ok ==> r->Ok_0.val() == self.val() + rhs.val(),
    {
        proof {
            if self.val() + rhs.val() < p256() {
                lemma_fp_of_val(self.val() + rhs.val());
            }
        }
        match pn_add_raw(self, rhs) {
            Some(c) => Ok(c),
            None => Err(MathError::Overflow),
        }
    }

    /// Exact subtraction; `Underflow` exactly when the right magnitude
    /// exceeds the left.
    pub fn checked_sub(&self, rhs: &FixedPoint) -> (r: Result<FixedPoint, MathError>)
        ensures
            r == (if self.val() >= rhs.val() {
                Ok::<FixedPoint, MathError>(fp_of(self.val() - rhs.val()))
            } else {
                Err::<FixedPoint, MathError>(MathError::Underflow)
            }),
            r is Ok ==> r->Ok_0.val() == self.val() - rhs.val(),
    {
        proof {
            if self.val() >= rhs.val() {
                lemma_fp_of_val(self.val() - rhs.val());
            }
        }
        match pn_sub_raw(self, rhs) {
            Some(c) => Ok(c),
            None => Err(MathError::Underflow),
        }
    }

    /// Whether this number is strictly smaller than `rhs`.
    pub fn less_than(&self, rhs: &FixedPoint) -> (r: bool)
        ensures
            r == (self.val() < rhs.val()),
    {
        self.hi < rhs.hi || (self.hi == rhs.hi && self.lo < rhs.lo)
    }

    /// Whether this number is strictly greater than `rhs`.
    pub fn greater_than(&self, rhs: &FixedPoint) -> (r: bool)
        ensures
            r == (self.val() > rhs.val()),
    {
        rhs.less_than(self)
    }

    /// Whether this number is at most `rhs`.
    pub fn less_than_or_equal(&self, rhs: &FixedPoint) -> (r: bool)
        ensures
            r == (self.val() <= rhs.val()),
    {
        !rhs.less_than(self)
    }

    /// Whether this number is at least `rhs`.
    pub fn greater_than_or_equal(&self, rhs: &FixedPoint) -> (r: bool)
        ensures
            r == (self.val() >= rhs.val()),
    {
        !self.less_than(rhs)
    }
}

/// The magnitude that `PreciseNumber::checked_mul` computes for inner
/// magnitudes `a` and `b`: the scaled product rounded by half a unit when the
/// raw product fits 256 bits, a coarser quotient-first product when it does
/// not, and `None` exactly where that crate reports overflow.
pub open spec fn pn_mul(a: int, b: int) -> Option<int> {
    if a * b + HALF < p256() {
        Some((a * b + HALF) / (ONE as int))
    } else if a * b < p256() {
        None
    } else if a >= b {
        if (a / (ONE as int)) * b < p256() {
            Some((a / (ONE as int)) * b)
        } else {
            None
        }
    } else {
        if (b / (ONE as int)) * a < p256() {
            Some((b / (ONE as int)) * a)
        } else {
            None
        }
    }
}

/// The magnitude that `PreciseNumber::checked_div` computes for inner
/// magnitudes `a` and `b`: the scaled quotient biased up by half a unit, a
/// coarser quotient when the scaled numerator does not fit 256 bits, and
/// `None` exactly where that crate reports a zero divisor or overflow.
pub open spec fn pn_div(a: int, b: int) -> Option<int> {
    if b == 0 {
        None
    } else if a * ONE < p256() {
        if a * ONE + HALF < p256() {
            Some((a * ONE + HALF) / b)
        } else {
            None
        }
    } else if a + HALF < p256() {
        if ((a + HALF) / b) * ONE < p256() {
            Some(((a + HALF) / b) * ONE)
        } else {
            None
        }
    } else {
        None
    }
}

/// The quotient of `x / d` rounded up instead of down.
pub open spec fn ceil_frac(x: int, d: int) -> int {
    if x % d == 0 {
        x / d
    } else {
        x / d + 1
    }
}

/// Maps an optional magnitude to the optional fixed-point number holding it.
pub open spec fn opt_fp(o: Option<int>) -> Option<FixedPoint> {
    match o {
        Some(v) => Some(fp_of(v)),
        None => None,
    }
}

/// Relies on `spl_math::precise_number::PreciseNumber::checked_mul`, whose
/// result is stated by [`pn_mul`].
#[verifier::external_body]
fn pn_mul_raw(a: &FixedPoint, b: &FixedPoint) -> (r: Option<FixedPoint>)
    ensures
        r == opt_fp(pn_mul(a.val(), b.val())),
{
    let pa = PreciseNumber { value: (U256::from(a.hi) << 128) | U256::from(a.lo) };
    let pb = PreciseNumber { value: (U256::from(b.hi) << 128) | U256::from(b.lo) };
    pa.checked_mul(&pb).map(|c| FixedPoint { hi: (c.value >> 128).as_u128(), lo: c.value.low_u128() })
}

/// Relies on `spl_math::precise_number::PreciseNumber::checked_div`, whose
/// result is stated by [`pn_div`].
#[verifier::external_body]
fn pn_div_raw(a: &FixedPoint, b: &FixedPoint) -> (r: Option<FixedPoint>)
    ensures
        r == opt_fp(pn_div(a.val(), b.val())),
{
    let pa = PreciseNumber { value: (U256::from(a.hi) << 128) | U256::from(a.lo) };
    let pb = PreciseNumber { value: (U256::from(b.hi) << 128) | U256::from(b.lo) };
    pa.checked_div(&pb).map(|c| FixedPoint { hi: (c.value >> 128).as_u128(), lo: c.value.low_u128() })
}

/// Relies on `spl_math::precise_number::PreciseNumber::unsigned_sub`: the
/// absolute difference of the inner values, with a flag that is true exactly
/// when the right value exceeds the left.
#[verifier::external_body]
fn pn_unsigned_sub_raw(a: &FixedPoint, b: &FixedPoint) -> (r: (FixedPoint, bool))
    ensures
        r == (if a.val() >= b.val() {
            (fp_of(a.val() - b.val()), false)
        } else {
            (fp_of(b.val() - a.val()), true)
        }),
{
    let pa = PreciseNumber { value: (U256::from(a.hi) << 128) | U256::from(a.lo) };
    let pb = PreciseNumber { value: (U256::from(b.hi) << 128) | U256::from(b.lo) };
    let (c, neg) = pa.unsigned_sub(&pb);
    (FixedPoint { hi: (c.value >> 128).as_u128(), lo: c.value.low_u128() }, neg)
}

/// Relies on `spl_math::precise_number::PreciseNumber::floor`: the inner
/// value rounded down to a multiple of `ONE`, which never overflows.
#[verifier::external_body]
fn pn_floor_raw(a: &FixedPoint) -> (r: FixedPoint)
    ensures
        r == fp_of((a.val() / (ONE as int)) * ONE),
{
    let pa = PreciseNumber { value: (U256::from(a.hi) << 128) | U256::from(a.lo) };
    let c = pa.floor().unwrap();
    FixedPoint { hi: (c.value >> 128).as_u128(), lo: c.value.low_u128() }
}

/// Relies on `spl_math::precise_number::PreciseNumber::ceiling`: the inner
/// value rounded up to a multiple of `ONE`, with `None` exactly when the
/// bias `ONE - 1` overflows 256 bits.
#[verifier::external_body]
fn pn_ceiling_raw(a: &FixedPoint) -> (r: Option<FixedPoint>)
    ensures
        r == (if a.val() + ONE - 1 < p256() {
            Some(fp_of(((a.val() + ONE - 1) / (ONE as int)) * ONE))
        } else {
            None::<FixedPoint>
        }),
{
    let pa = PreciseNumber { value: (U256::from(a.hi) << 128) | U256::from(a.lo) };
    pa.ceiling().map(|c| FixedPoint { hi: (c.value >> 128).as_u128(), lo: c.value.low_u128() })
}

/// Relies on `spl_math::precise_number::PreciseNumber::to_imprecise`: the
/// inner value biased up by half a unit and truncated to whole units, with
/// `None` exactly when the bias overflows 256 bits. The `requires` keeps out
/// the values whose whole part exceeds `u128`, on which that function panics.
#[verifier::external_body]
fn pn_to_imprecise_raw(a: &FixedPoint) -> (r: Option<u128>)
    requires
        a.val() + HALF < p256() ==> (a.val() + HALF) / (ONE as int) <= u128::MAX,
    ensures
        r == (if a.val() + HALF < p256() {
            Some(((a.val() + HALF) / (ONE as int)) as u128)
        } else {
            None::<u128>
        }),
{
    let pa = PreciseNumber { value: (U256::from(a.hi) << 128) | U256::from(a.lo) };
    pa.to_imprecise()
}

/// Relies on `spl_math::uint::U256::checked_mul` and
/// `spl_math::uint::U256::div_mod`: scales the left magnitude by `ONE` and
/// divides it by the right one, returning the quotient and remainder of that
/// exact integer division, with `None` exactly when the scaled numerator
/// overflows 256 bits.
#[verifier::external_body]
fn u256_scaled_div_rem_raw(a: &FixedPoint, b: &FixedPoint) -> (r: Option<(FixedPoint, FixedPoint)>)
    requires
        b.val() > 0,
    ensures
        r == (if a.val() * ONE < p256() {
            Some((fp_of((a.val() * ONE) / b.val()), fp_of((a.val() * ONE) % b.val())))
        } else {
            None::<(FixedPoint, FixedPoint)>
        }),
{
    let na = (U256::from(a.hi) << 128) | U256::from(a.lo);
    let nb = (U256::from(b.hi) << 128) | U256::from(b.lo);
    na.checked_mul(U256::from(ONE)).map(|n| {
        let (q, rem) = n.div_mod(nb);
        (
            FixedPoint { hi: (q >> 128).as_u128(), lo: q.low_u128() },
            FixedPoint { hi: (rem >> 128).as_u128(), lo: rem.low_u128() },
        )
    })
}

/// A non-negative value does not grow when divided by a positive divisor.
proof fn lemma_div_le_self(x: int, d: int)
    requires
        x >= 0,
        d >= 1,
    ensures
        0 <= x / d <= x,
{
    lemma_div_pos_is_pos(x, d);
    lemma_div_nonincreasing(x, d);
}

/// Whatever `pn_mul` returns is a representable magnitude.
pub proof fn lemma_pn_mul_in_range(a: int, b: int)
    requires
        0 <= a,
        0 <= b,
    ensures
        pn_mul(a, b) is Some ==> 0 <= pn_mul(a, b)->Some_0 < p256(),
{
    if a * b + HALF < p256() {
        assert(a * b >= 0) by (nonlinear_arith)
            requires
                a >= 0,
                b >= 0,
        ;
        lemma_div_le_self(a * b + HALF, ONE as int);
    }
}

/// Whatever `pn_div` returns is a representable magnitude.
proof fn lemma_pn_div_in_range(a: int, b: int)
    requires
        0 <= a,
        0 <= b,
    ensures
        pn_div(a, b) is Some ==> 0 <= pn_div(a, b)->Some_0 < p256(),
{
    if b != 0 && a * ONE < p256() && a * ONE + HALF < p256() {
        assert(a * ONE >= 0) by (nonlinear_arith)
            requires
                a >= 0,
        ;
        lemma_div_le_self(a * ONE + HALF, b);
    }
}

impl FixedPoint {
    /// Multiplication of the two real values, computed by scaling the raw
    /// product back down by `ONE`; `Overflow` exactly when the backing
    /// arithmetic reports it. The result magnitude is [`pn_mul`] of the
    /// operand magnitudes.
    pub fn checked_mul(&self, rhs: &FixedPoint) -> (r: Result<FixedPoint, MathError>)
        ensures
            r == (match pn_mul(self.val(), rhs.val()) {
                Some(v) => Ok::<FixedPoint, MathError>(fp_of(v)),
                None => Err::<FixedPoint, MathError>(MathError::Overflow),
            }),
            r is Ok ==> r->Ok_0.val() == pn_mul(self.val(), rhs.val())->Some_0,
    {
        proof {
            lemma_pn_mul_in_range(self.val(), rhs.val());
            if pn_mul(self.val(), rhs.val()) is Some {
                lemma_fp_of_val(pn_mul(self.val(), rhs.val())->Some_0);
            }
        }
        match pn_mul_raw(self, rhs) {
            Some(c) => Ok(c),
            None => Err(MathError::Overflow),
        }
    }

    /// Division of the two real values, computed by scaling the numerator up
    /// by `ONE`; `DivisionByZero` exactly on a zero divisor, `Overflow`
    /// exactly when the backing arithmetic reports it. The result magnitude
    /// is [`pn_div`] of the operand magnitudes.
    pub fn checked_div(&self, rhs: &FixedPoint) -> (r: Result<FixedPoint, MathError>)
        ensures
            rhs.val() == 0 ==> r == Err::<FixedPoint, MathError>(MathError::DivisionByZero),
            rhs.val() != 0 ==> r == (match pn_div(self.val(), rhs.val()) {
                Some(v) => Ok::<FixedPoint, MathError>(fp_of(v)),
                None => Err::<FixedPoint, MathError>(MathError::Overflow),
            }),
            r is Ok ==> r->Ok_0.val() == pn_div(self.val(), rhs.val())->Some_0,
    {
        if rhs.hi == 0 && rhs.lo == 0 {
            return Err(MathError::DivisionByZero);
        }
        proof {
            lemma_pn_div_in_range(self.val(), rhs.val());
            if pn_div(self.val(), rhs.val()) is Some {
                lemma_fp_of_val(pn_div(self.val(), rhs.val())->Some_0);
            }
        }
        match pn_div_raw(self, rhs) {
            Some(c) => Ok(c),
            None => Err(MathError::Overflow),
        }
    }

    /// The absolute difference of the two values, together with a flag that
    /// is true exactly when `rhs` exceeds `self`.
    pub fn unsigned_sub(&self, rhs: &FixedPoint) -> (r: (FixedPoint, bool))
        ensures
            self.val() >= rhs.val() ==> r.1 == false && r.0.val() == self.val() - rhs.val(),
            self.val() < rhs.val() ==> r.1 == true && r.0.val() == rhs.val() - self.val(),
    {
        proof {
            if self.val() >= rhs.val() {
                lemma_fp_of_val(self.val() - rhs.val());
            } else {
                lemma_fp_of_val(rhs.val() - self.val());
            }
        }
        pn_unsigned_sub_raw(self, rhs)
    }

    /// Whether the absolute difference of the two values is at most
    /// `tolerance` fixed-point units.
    pub fn almost_eq(&self, rhs: &FixedPoint, tolerance: u128) -> (r: bool)
        ensures
            r == (if self.val() >= rhs.val() {
                self.val() - rhs.val() <= tolerance
            } else {
                rhs.val() - self.val() <= tolerance
            }),
    {
        let (difference, _) = self.unsigned_sub(rhs);
        difference.hi == 0 && difference.lo <= tolerance
    }

    /// The value rounded down to a whole number of units.
    pub fn floor(&self) -> (r: FixedPoint)
        ensures
            r.val() == (self.val() / (ONE as int)) * ONE,
            r.val() <= self.val(),
    {
        proof {
            lemma_fundamental_div_mod(self.val(), ONE as int);
            lemma_div_pos_is_pos(self.val(), ONE as int);
            lemma_fp_of_val((self.val() / (ONE as int)) * ONE);
        }
        pn_floor_raw(self)
    }

    /// The value rounded up to a whole number of units; `Overflow` exactly
    /// when biasing by `ONE - 1` leaves 256 bits.
    pub fn ceiling(&self) -> (r: Result<FixedPoint, MathError>)
        ensures
            r == (if self.val() + ONE - 1 < p256() {
                Ok::<FixedPoint, MathError>(fp_of(((self.val() + ONE - 1) / (ONE as int)) * ONE))
            } else {
                Err::<FixedPoint, MathError>(MathError::Overflow)
            }),
            r is Ok ==> r->Ok_0.val() == ((self.val() + ONE - 1) / (ONE as int)) * ONE
                && self.val() <= r->Ok_0.val(),
    {
        proof {
            if self.val() + ONE - 1 < p256() {
                lemma_fundamental_div_mod(self.val() + ONE - 1, ONE as int);
                lemma_div_pos_is_pos(self.val() + ONE - 1, ONE as int);
                lemma_fp_of_val(((self.val() + ONE - 1) / (ONE as int)) * ONE);
            }
        }
        match pn_ceiling_raw(self) {
            Some(c) => Ok(c),
            None => Err(MathError::Overflow),
        }
    }

    /// Division of the two real values with the quotient magnitude rounded
    /// up, so that the result times the divisor is never below the dividend;
    /// `DivisionByZero` exactly on a zero divisor, `Overflow` exactly when
    /// the scaled numerator leaves 256 bits.
    pub fn checked_div_ceil(&self, rhs: &FixedPoint) -> (r: Result<FixedPoint, MathError>)
        ensures
            rhs.val() == 0 ==> r == Err::<FixedPoint, MathError>(MathError::DivisionByZero),
            rhs.val() != 0 && self.val() * ONE >= p256() ==> r == Err::<FixedPoint, MathError>(
                MathError::Overflow,
            ),
            rhs.val() != 0 && self.val() * ONE < p256() ==> r is Ok && r->Ok_0.val() == ceil_frac(
                self.val() * ONE,
                rhs.val(),
            ),
    {
        if rhs.hi == 0 && rhs.lo == 0 {
            return Err(MathError::DivisionByZero);
        }
        let ghost n = self.val() * ONE;
        let ghost b = rhs.val();
        match u256_scaled_div_rem_raw(self, rhs) {
            Some((q, rem)) => {
                proof {
                    lemma_fundamental_div_mod(n, b);
                    lemma_div_pos_is_pos(n, b);
                    lemma_fp_of_val(n / b);
                    lemma_fp_of_val(n % b);
                }
                if rem.hi == 0 && rem.lo == 0 {
                    Ok(q)
                } else {
                    proof {
                        assert(q.val() * 2 <= q.val() * b) by (nonlinear_arith)
                            requires
                                q.val() >= 0,
                                b >= 2,
                        ;
                        assert(q.val() * b <= n) by (nonlinear_arith)
                            requires
                                n == b * q.val() + n % b,
                                0 <= n % b,
                        ;
                    }
                    if q.lo == u128::MAX {
                        Ok(FixedPoint { hi: q.hi + 1, lo: 0 })
                    } else {
                        Ok(FixedPoint { hi: q.hi, lo: q.lo + 1 })
                    }
                }
            },
            None => Err(MathError::Overflow),
        }
    }

    /// The whole-number part of the value, rounded down; `Unrepresentable`
    /// exactly when it does not fit `u64`.
    pub fn floor_u64(&self) -> (r: Result<u64, MathError>)
        ensures
            r == (if self.val() / (ONE as int) <= u64::MAX {
                Ok::<u64, MathError>((self.val() / (ONE as int)) as u64)
            } else {
                Err::<u64, MathError>(MathError::Unrepresentable)
            }),
    {
        let ghost q = self.val() / (ONE as int);
        let f = self.floor();
        proof {
            lemma_div_pos_is_pos(self.val(), ONE as int);
            lemma_div_by_multiple(q, ONE as int);
        }
        if f.hi == 0 && f.lo <= 18_446_744_073_709_551_615_000_000_000_000u128 {
            Ok((f.lo / ONE) as u64)
        } else {
            Err(MathError::Unrepresentable)
        }
    }

    /// The whole-number part of the value, rounded up; `Unrepresentable`
    /// exactly when it does not fit `u64`.
    pub fn ceil_u64(&self) -> (r: Result<u64, MathError>)
        ensures
            r == (if (self.val() + ONE - 1) / (ONE as int) <= u64::MAX {
                Ok::<u64, MathError>(((self.val() + ONE - 1) / (ONE as int)) as u64)
            } else {
                Err::<u64, MathError>(MathError::Unrepresentable)
            }),
    {
        let ghost q = (self.val() + ONE - 1) / (ONE as int);
        proof {
            lemma_div_pos_is_pos(self.val() + ONE - 1, ONE as int);
        }
        match self.ceiling() {
            Ok(c) => {
                proof {
                    lemma_div_by_multiple(q, ONE as int);
                }
                if c.hi == 0 && c.lo <= 18_446_744_073_709_551_615_000_000_000_000u128 {
                    Ok((c.lo / ONE) as u64)
                } else {
                    Err(MathError::Unrepresentable)
                }
            },
            Err(_) => {
                proof {
                    lemma_div_by_multiple(u64::MAX + 1, ONE as int);
                    lemma_div_is_ordered(
                        (u64::MAX + 1) * ONE,
                        self.val() + ONE - 1,
                        ONE as int,
                    );
                }
                Err(MathError::Unrepresentable)
            },
        }
    }

    /// The whole-number part of the value after biasing it up by half a
    /// unit, so that fractions of one half and more round up;
    /// `Unrepresentable` exactly when that whole number does not fit `u128`.
    pub fn to_imprecise(&self) -> (r: Result<u128, MathError>)
        ensures
            r == (if (self.val() + HALF) / (ONE as int) <= u128::MAX {
                Ok::<u128, MathError>(((self.val() + HALF) / (ONE as int)) as u128)
            } else {
                Err::<u128, MathError>(MathError::Unrepresentable)
            }),
    {
        // holds exactly when the magnitude is at most ONE * 2^128 - 1 - HALF,
        // the largest whose biased whole part still fits u128
        let in_range: bool = self.hi < 999_999_999_999u128 || (self.hi == 999_999_999_999u128
            && self.lo <= 340_282_366_920_938_463_463_374_606_931_768_211_455u128);
        proof {
            lemma_fundamental_div_mod(self.val() + HALF, ONE as int);
            lemma_div_pos_is_pos(self.val() + HALF, ONE as int);
            if in_range {
                lemma_div_is_ordered(self.val() + HALF, ONE * p128() - 1, ONE as int);
                lemma_fundamental_div_mod_converse(
                    ONE * p128() - 1,
                    ONE as int,
                    p128() - 1,
                    ONE - 1,
                );
            } else {
                lemma_div_is_ordered(ONE * p128(), self.val() + HALF, ONE as int);
                lemma_div_by_multiple(p128(), ONE as int);
            }
        }
        if in_range {
            match pn_to_imprecise_raw(self) {
                Some(v) => Ok(v),
                None => Err(MathError::Unrepresentable),
            }
        } else {
            Err(MathError::Unrepresentable)
        }
    }
}

} // verus!
