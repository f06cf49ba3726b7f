//! Numeric kernels: integer square root, natural logarithm, fractional
//! exponentiation, and sign-magnitude arithmetic.
//!
//! Every kernel is deterministic: each rounding step and iteration count is
//! fixed here rather than left to the platform, so the same inputs produce
//! bit-identical outputs everywhere.

use vstd::arithmetic::div_mod::{
    lemma_div_by_multiple, lemma_div_denominator, lemma_div_is_ordered, lemma_div_pos_is_pos,
    lemma_div_multiples_vanish, lemma_fundamental_div_mod, lemma_fundamental_div_mod_converse,
    lemma_multiply_divide_lt,
};
use vstd::arithmetic::power2::{
    lemma2_to64, lemma_pow2_adds, lemma_pow2_pos, lemma_pow2_strictly_increases,
    lemma_pow2_unfold, pow2,
};
use vstd::pervasive::unreached;
use vstd::prelude::*;

use spl_math::precise_number::PreciseNumber;
use spl_math::uint::U256;

use crate::fixed::{lemma_pn_mul_in_range, opt_fp, p256, pn_mul, FixedPoint, HALF, ONE};

verus! {

/// `r` is the integer nearest to the real square root of `x`.
///
/// The intervals of `x` mapping to a given `r` partition the naturals, so
/// exactly one `r` satisfies this for each `x`; ties cannot arise because a
/// square root is never exactly halfway between two integers.
pub open spec fn is_rounded_sqrt(x: nat, r: nat) -> bool {
    x <= r * r + r && (r == 0 || r * r - r < x)
}

/// The value one past the largest `u64`, the first candidate root that a
/// `u128` radicand can never reach from below.
pub const SQRT_CANDIDATE_LIMIT: u128 = 18_446_744_073_709_551_616;

/// The square root of `radicand`, rounded to the nearest integer.
///
/// Computed as a binary search for the floor square root followed by one
/// rounding comparison, entirely in integer arithmetic.
pub fn sqrt(radicand: u128) -> (r: u128)
    ensures
        is_rounded_sqrt(radicand as nat, r as nat),
{
    let mut lo: u128 = 0;
    let mut hi: u128 = SQRT_CANDIDATE_LIMIT;
    while hi - lo > 1
        invariant
            lo < hi <= SQRT_CANDIDATE_LIMIT,
            lo * lo <= radicand,
            radicand < hi * hi,
        decreases hi - lo,
    {
        let mid = lo + (hi - lo) / 2;
        proof {
            assert(mid * mid <= (SQRT_CANDIDATE_LIMIT - 1) * (SQRT_CANDIDATE_LIMIT - 1))
                by (nonlinear_arith)
                requires
                    0 <= mid <= SQRT_CANDIDATE_LIMIT - 1,
            ;
        }
        if mid * mid <= radicand {
            lo = mid;
        } else {
            hi = mid;
        }
    }
    proof {
        assert(radicand < (lo + 1) * (lo + 1)) by (nonlinear_arith)
            requires
                radicand < hi * hi,
                hi == lo + 1,
        ;
    }
    if radicand - lo * lo > lo {
        proof {
            assert(is_rounded_sqrt(radicand as nat, (lo + 1) as nat)) by (nonlinear_arith)
                requires
                    lo * lo + lo < radicand,
                    radicand < (lo + 1) * (lo + 1),
            ;
        }
        lo + 1
    } else {
        proof {
            assert(is_rounded_sqrt(radicand as nat, lo as nat)) by (nonlinear_arith)
                requires
                    lo * lo <= radicand,
                    radicand <= lo * lo + lo,
            ;
        }
        lo
    }
}

/// The rounded square root characterization is unique: two roots that both
/// satisfy it for the same radicand are equal.
pub proof fn lemma_rounded_sqrt_unique(x: nat, r: nat, s: nat)
    requires
        is_rounded_sqrt(x, r),
        is_rounded_sqrt(x, s),
    ensures
        r == s,
{
    assert(r == s) by (nonlinear_arith)
        requires
            x <= r * r + r,
            r == 0 || r * r - r < x,
            x <= s * s + s,
            s == 0 || s * s - s < x,
    ;
}

/// Where the fractional part of the real square root is below one half, the
/// rounded root `r` is the exact floor square root: `r^2 <= x < (r+1)^2`.
///
/// On the remaining inputs, the first radicand being `3`, the rounded root
/// exceeds the floor root by one and `r * r <= x` fails.
pub proof fn lemma_sqrt_floor_bounds(x: nat, r: nat)
    requires
        is_rounded_sqrt(x, r),
        exists|s: nat| #[trigger] (s * s) <= x <= s * s + s,
    ensures
        r * r <= x < (r + 1) * (r + 1),
{
    let s = choose|s: nat| #[trigger] (s * s) <= x <= s * s + s;
    assert(is_rounded_sqrt(x, s)) by (nonlinear_arith)
        requires
            s * s <= x <= s * s + s,
    ;
    lemma_rounded_sqrt_unique(x, r, s);
    assert(x < (r + 1) * (r + 1)) by (nonlinear_arith)
        requires
            x <= r * r + r,
    ;
}

/// The natural logarithm of two at twelve fractional digits, rounded to
/// nearest.
pub const LN2: u128 = 693_147_180_560;

/// The fixed number of binary digits of the mantissa logarithm that the
/// fraction loop extracts.
pub const LN_FRACTION_ROUNDS: u32 = 40;

/// The exponent of the dominant power of two: `floor(log2(x))`, taken as
/// zero below two.
pub open spec fn log2_floor(x: nat) -> nat
    decreases x,
{
    if x < 2 {
        0
    } else {
        (1 + log2_floor(x / 2)) as nat
    }
}

/// `log2_floor` brackets its argument between consecutive powers of two.
pub proof fn lemma_log2_floor_bounds(x: nat)
    requires
        x >= 1,
    ensures
        pow2(log2_floor(x)) <= x < pow2(log2_floor(x) + 1),
    decreases x,
{
    if x < 2 {
        lemma2_to64();
    } else {
        lemma_log2_floor_bounds(x / 2);
        let m = log2_floor(x / 2);
        lemma_pow2_unfold((m + 1) as nat);
        lemma_pow2_unfold((m + 2) as nat);
        lemma_fundamental_div_mod(x as int, 2);
    }
}

/// Only one exponent brackets a given argument.
pub proof fn lemma_log2_floor_unique(x: nat, n: nat)
    requires
        pow2(n) <= x < pow2(n + 1),
    ensures
        log2_floor(x) == n,
{
    lemma_pow2_pos(n);
    lemma_log2_floor_bounds(x);
    let m = log2_floor(x);
    if m < n {
        if m + 1 < n {
            lemma_pow2_strictly_increases(m + 1, n);
        }
    }
    if m > n {
        if n + 1 < m {
            lemma_pow2_strictly_increases(n + 1, m);
        }
    }
}

/// The amount accumulated by the remaining `rounds` squaring rounds of the
/// logarithm fraction loop, starting from the mantissa `z` (scaled by
/// `ONE`) with the next binary digit of `log2` worth `addend`.
pub open spec fn ln_frac_acc(z: int, addend: int, rounds: nat) -> int
    decreases rounds,
{
    if rounds == 0 {
        0
    } else {
        let z2 = (z * z + HALF) / (ONE as int);
        if z2 >= 2 * ONE {
            addend + ln_frac_acc(z2 / 2, addend / 2, (rounds - 1) as nat)
        } else {
            ln_frac_acc(z2, addend / 2, (rounds - 1) as nat)
        }
    }
}

/// The extracted fraction never exceeds twice its first digit's worth.
pub proof fn lemma_ln_frac_acc_bound(z: int, addend: int, rounds: nat)
    requires
        addend >= 0,
    ensures
        0 <= ln_frac_acc(z, addend, rounds) <= 2 * addend,
    decreases rounds,
{
    if rounds > 0 {
        let z2 = (z * z + HALF) / (ONE as int);
        if z2 >= 2 * ONE {
            lemma_ln_frac_acc_bound(z2 / 2, addend / 2, (rounds - 1) as nat);
        } else {
            lemma_ln_frac_acc_bound(z2, addend / 2, (rounds - 1) as nat);
        }
    }
}

/// A mantissa of exactly one contributes nothing: its square stays one.
pub proof fn lemma_ln_frac_acc_one(addend: int, rounds: nat)
    ensures
        ln_frac_acc(ONE as int, addend, rounds) == 0,
    decreases rounds,
{
    if rounds > 0 {
        assert((ONE * ONE + HALF) / (ONE as int) == ONE) by {
            lemma_fundamental_div_mod_converse(
                ONE * ONE + HALF,
                ONE as int,
                ONE as int,
                HALF as int,
            );
        }
        lemma_ln_frac_acc_one(addend / 2, (rounds - 1) as nat);
    }
}

/// The logarithm value the engine computes for the scaled input `v`, which
/// stands for the real number `v / ONE` and must be at least one: the
/// dominant power of two times `LN2`, plus the fraction extracted from the
/// remaining mantissa by `LN_FRACTION_ROUNDS` squaring rounds.
pub open spec fn ln_scaled_approx(v: nat) -> int {
    let n = log2_floor(v / (ONE as nat));
    let z0 = (v * ONE + HALF) / (pow2(n) * ONE);
    n * LN2 + ln_frac_acc(z0, (LN2 / 2) as int, LN_FRACTION_ROUNDS as nat)
}

/// `2^128` as a literal.
proof fn lemma_pow2_128_literal()
    ensures
        pow2(128) == 0x100000000000000000000000000000000,
{
    lemma_pow2_adds(64, 64);
    lemma2_to64();
}

/// `2^89` as a literal.
proof fn lemma_pow2_89_literal()
    ensures
        pow2(89) == 0x20000000000000000000000,
{
    lemma_pow2_adds(64, 25);
    lemma2_to64();
}

/// Extracts `LN_FRACTION_ROUNDS` binary digits of `log2` of the mantissa
/// `z` (scaled by `ONE`, in `[1, 2)`) by repeated squaring: each squaring
/// that reaches two halves the mantissa and contributes a halved share of
/// `LN2`.
fn ln_fraction(z: u128) -> (r: u128)
    requires
        ONE <= z < 2 * ONE,
    ensures
        r == ln_frac_acc(z as int, (LN2 / 2) as int, LN_FRACTION_ROUNDS as nat),
        r <= LN2,
{
    let ghost total = ln_frac_acc(z as int, (LN2 / 2) as int, LN_FRACTION_ROUNDS as nat);
    let mut z_cur: u128 = z;
    let mut addend: u128 = LN2 / 2;
    let mut acc: u128 = 0;
    let mut rounds_left: u32 = LN_FRACTION_ROUNDS;
    proof {
        lemma_ln_frac_acc_bound(z_cur as int, addend as int, rounds_left as nat);
    }
    while rounds_left > 0
        invariant
            z_cur < 2 * ONE,
            acc + 2 * addend <= LN2,
            0 <= ln_frac_acc(z_cur as int, addend as int, rounds_left as nat),
            acc + ln_frac_acc(z_cur as int, addend as int, rounds_left as nat) == total,
        decreases rounds_left,
    {
        proof {
            assert(z_cur * z_cur + HALF < ONE * (4 * ONE - 1)) by (nonlinear_arith)
                requires
                    0 <= z_cur <= 2 * ONE - 1,
                    ONE == 1_000_000_000_000,
                    HALF == 500_000_000_000,
            ;
            lemma_div_pos_is_pos(z_cur * z_cur + HALF, ONE as int);
            lemma_multiply_divide_lt(z_cur * z_cur + HALF, ONE as int, 4 * ONE - 1);
            lemma_ln_frac_acc_bound(
                ((z_cur * z_cur + HALF) / (ONE as int)) / 2,
                (addend / 2) as int,
                (rounds_left - 1) as nat,
            );
            lemma_ln_frac_acc_bound(
                (z_cur * z_cur + HALF) / (ONE as int),
                (addend / 2) as int,
                (rounds_left - 1) as nat,
            );
        }
        let z2 = (z_cur * z_cur + HALF) / ONE;
        if z2 >= 2 * ONE {
            acc = acc + addend;
            z_cur = z2 / 2;
        } else {
            z_cur = z2;
        }
        addend = addend / 2;
        rounds_left = rounds_left - 1;
    }
    acc
}

/// Computes the logarithm of `d.val() / ONE` given its dominant power of
/// two: `p == 2^n` with `2^n * ONE <= d.val() < 2^(n+1) * ONE`. The result
/// holds `n` shares of `LN2` plus the fraction extracted from the mantissa
/// `d / 2^n`.
fn ln_from_parts(d: &FixedPoint, p: u128, n: u32) -> (r: FixedPoint)
    requires
        p == pow2(n as nat),
        (p as int) * ONE <= d.val(),
        d.val() < 2 * ((p as int) * ONE),
        d.val() * ONE + HALF < p256(),
        n <= 200,
    ensures
        r.val() == (n as int) * LN2 + ln_frac_acc(
            (d.val() * ONE + HALF) / ((p as int) * ONE),
            (LN2 / 2) as int,
            LN_FRACTION_ROUNDS as nat,
        ),
        (n as int) * LN2 <= r.val() <= (n as int) * LN2 + LN2,
{
    let pf = FixedPoint::new(p);
    let ghost a = d.val();
    let ghost b = (p as int) * ONE;
    let ghost z0 = (a * ONE + HALF) / b;
    proof {
        lemma_pow2_pos(n as nat);
        assert(b * ONE <= a * ONE) by (nonlinear_arith)
            requires
                b <= a,
                ONE > 0,
        ;
        assert(a * ONE >= 0) by (nonlinear_arith)
            requires
                a >= 0,
        ;
        lemma_div_pos_is_pos(a * ONE + HALF, b);
        lemma_div_is_ordered(b * ONE, a * ONE + HALF, b);
        lemma_div_multiples_vanish(ONE as int, b);
        assert(a * ONE + HALF < b * (2 * ONE)) by (nonlinear_arith)
            requires
                a < 2 * b,
                a >= 0,
                b >= 1,
                ONE == 1_000_000_000_000,
                HALF == 500_000_000_000,
        ;
        lemma_multiply_divide_lt(a * ONE + HALF, b, 2 * ONE);
    }
    let zf = match d.checked_div(&pf) {
        Ok(z) => z,
        Err(_) => unreached(),
    };
    proof {
        assert(zf.val() == z0);
        assert(zf.hi == 0);
    }
    let frac = ln_fraction(zf.lo);
    let acc: u128 = (n as u128) * LN2 + frac;
    FixedPoint::from_raw(acc)
}

/// The natural logarithm of the scaled value `v` (standing for `v / ONE`,
/// at least one), accurate to the engine's documented approximation
/// [`ln_scaled_approx`]. Bounded by ninety shares of `LN2`, since a scaled
/// `u128` never reaches `2^89` whole units.
pub fn log_scaled(v: u128) -> (r: FixedPoint)
    requires
        v >= ONE,
    ensures
        r.val() == ln_scaled_approx(v as nat),
        0 <= r.val() <= 89 * LN2,
{
    let mut n: u32 = 0;
    let mut p: u128 = 1;
    let mut t: u128 = v;
    proof {
        lemma2_to64();
    }
    while t >= 2 * ONE
        invariant
            v >= ONE,
            p == pow2(n as nat),
            t == (v as int) / (pow2(n as nat) as int),
            t >= ONE,
            (p as int) * ONE <= v,
            n <= 88,
        decreases t,
    {
        proof {
            lemma_pow2_pos(n as nat);
            lemma_pow2_unfold((n + 1) as nat);
            let pn = pow2(n as nat) as int;
            lemma_fundamental_div_mod(v as int, pn);
            assert(pn * (v as int / pn) >= pn * (2 * ONE)) by (nonlinear_arith)
                requires
                    v as int / pn >= 2 * ONE,
                    pn >= 1,
            ;
            if n + 1 > 88 {
                lemma_pow2_89_literal();
                assert(false);
            }
            lemma_div_denominator(v as int, pn, 2);
        }
        t = t / 2;
        p = p * 2;
        n = n + 1;
    }
    proof {
        lemma_pow2_pos(n as nat);
        let pn = pow2(n as nat) as int;
        lemma_fundamental_div_mod(v as int, pn);
        assert(v < pn * (2 * ONE)) by (nonlinear_arith)
            requires
                v as int == pn * (v as int / pn) + (v as int % pn),
                v as int % pn < pn,
                v as int / pn < 2 * ONE,
                pn >= 1,
        ;
        // v * ONE + HALF stays far below 2^256
        assert(v * ONE <= 0xffffffffffffffffffffffffffffffff * 1_000_000_000_000int);
        // relate n to the spec's exponent
        lemma_div_by_multiple(pn, ONE as int);
        lemma_div_is_ordered(pn * ONE, v as int, ONE as int);
        lemma_multiply_divide_lt(v as int, ONE as int, 2 * pn);
        assert((ONE as int) * (2 * pn) == pn * (2 * ONE)) by (nonlinear_arith);
        lemma_pow2_unfold((n + 1) as nat);
        lemma_log2_floor_unique((v / ONE) as nat, n as nat);
    }
    let d = FixedPoint::from_raw(v);
    ln_from_parts(&d, p, n)
}

/// The natural logarithm of the plain integer `x`, which must be positive:
/// zero exactly at one, and otherwise the engine's documented approximation
/// of `ln(x)` at twelve fractional digits.
pub fn log(x: u128) -> (r: FixedPoint)
    requires
        x >= 1,
    ensures
        r.val() == ln_scaled_approx((x * ONE) as nat),
        x == 1 ==> r.val() == 0,
{
    let mut n: u32 = 0;
    let mut p: u128 = 1;
    let mut t: u128 = x;
    proof {
        lemma2_to64();
    }
    while t >= 2
        invariant
            x >= 1,
            p == pow2(n as nat),
            t == (x as int) / (pow2(n as nat) as int),
            t >= 1,
            p <= x,
            n <= 127,
        decreases t,
    {
        proof {
            lemma_pow2_pos(n as nat);
            lemma_pow2_unfold((n + 1) as nat);
            let pn = pow2(n as nat) as int;
            lemma_fundamental_div_mod(x as int, pn);
            assert(pn * (x as int / pn) >= pn * 2) by (nonlinear_arith)
                requires
                    x as int / pn >= 2,
                    pn >= 1,
            ;
            if n + 1 > 127 {
                lemma_pow2_128_literal();
                assert(false);
            }
            lemma_div_denominator(x as int, pn, 2);
        }
        t = t / 2;
        p = p * 2;
        n = n + 1;
    }
    proof {
        lemma_pow2_pos(n as nat);
        let pn = pow2(n as nat) as int;
        lemma_fundamental_div_mod(x as int, pn);
        assert(x < pn * 2) by (nonlinear_arith)
            requires
                x as int == pn * (x as int / pn) + (x as int % pn),
                x as int % pn < pn,
                x as int / pn < 2,
                pn >= 1,
        ;
        // the helper's inputs
        assert((p as int) * ONE <= x * ONE);
        assert(x * ONE < 2 * ((p as int) * ONE));
        assert(x * ONE <= 0xffffffffffffffffffffffffffffffff * 1_000_000_000_000int);
        assert((x * ONE) * ONE <= (0xffffffffffffffffffffffffffffffff * 1_000_000_000_000int)
            * ONE) by (nonlinear_arith)
            requires
                x * ONE <= 0xffffffffffffffffffffffffffffffff * 1_000_000_000_000int,
                ONE > 0,
        ;
        // relate n to the spec's exponent for v == x * ONE
        lemma_div_by_multiple(x as int, ONE as int);
        lemma_pow2_unfold((n + 1) as nat);
        lemma_log2_floor_unique(x as nat, n as nat);
    }
    let d = FixedPoint::new(x);
    let r = ln_from_parts(&d, p, n);
    proof {
        if x == 1 {
            assert(n == 0) by {
                lemma2_to64();
                lemma_log2_floor_unique(1, 0);
            }
            assert((ONE * ONE + HALF) / ((1int) * ONE) == ONE) by {
                lemma_fundamental_div_mod_converse(
                    ONE * ONE + HALF,
                    ONE as int,
                    ONE as int,
                    HALF as int,
                );
            }
            lemma_ln_frac_acc_one((LN2 / 2) as int, LN_FRACTION_ROUNDS as nat);
        }
    }
    r
}

/// The magnitude computed by the squaring loop of
/// `PreciseNumber::checked_pow` from the running result `result`, the
/// running square `sq`, and the remaining halved exponent `e`: each round
/// squares `sq` and folds it into the result on odd exponents.
pub open spec fn pn_pow_loop(result: int, sq: int, e: nat) -> Option<int>
    decreases e,
{
    if e == 0 {
        Some(result)
    } else {
        match pn_mul(sq, sq) {
            None => None,
            Some(sq2) => if e % 2 == 1 {
                match pn_mul(result, sq2) {
                    None => None,
                    Some(res2) => pn_pow_loop(res2, sq2, e / 2),
                }
            } else {
                pn_pow_loop(result, sq2, e / 2)
            },
        }
    }
}

/// The magnitude that `PreciseNumber::checked_pow` computes for a base of
/// magnitude `b` and a plain exponent `e`, `None` exactly where that crate
/// reports overflow.
pub open spec fn pn_pow(b: int, e: nat) -> Option<int> {
    pn_pow_loop(
        if e % 2 == 0 {
            ONE as int
        } else {
            b
        },
        b,
        e / 2,
    )
}

/// Whatever the squaring loop returns is a representable magnitude.
proof fn lemma_pn_pow_loop_in_range(result: int, sq: int, e: nat)
    requires
        0 <= result < p256(),
        0 <= sq < p256(),
    ensures
        pn_pow_loop(result, sq, e) is Some ==> 0 <= pn_pow_loop(result, sq, e)->Some_0 < p256(),
    decreases e,
{
    if e > 0 {
        lemma_pn_mul_in_range(sq, sq);
        match pn_mul(sq, sq) {
            None => {},
            Some(sq2) => {
                if e % 2 == 1 {
                    lemma_pn_mul_in_range(result, sq2);
                    match pn_mul(result, sq2) {
                        None => {},
                        Some(res2) => {
                            lemma_pn_pow_loop_in_range(res2, sq2, e / 2);
                        },
                    }
                } else {
                    lemma_pn_pow_loop_in_range(result, sq2, e / 2);
                }
            },
        }
    }
}

/// Whatever `pn_pow` returns is a representable magnitude.
pub proof fn lemma_pn_pow_in_range(b: int, e: nat)
    requires
        0 <= b < p256(),
    ensures
        pn_pow(b, e) is Some ==> 0 <= pn_pow(b, e)->Some_0 < p256(),
{
    lemma_pn_pow_loop_in_range(
        if e % 2 == 0 {
            ONE as int
        } else {
            b
        },
        b,
        e / 2,
    );
}

/// Relies on `spl_math::precise_number::PreciseNumber::checked_pow`, whose
/// binary-exponentiation loop is mirrored exactly by [`pn_pow`].
#[verifier::external_body]
fn pn_pow_raw(base: &FixedPoint, exponent: u128) -> (r: Option<FixedPoint>)
    ensures
        r == opt_fp(pn_pow(base.val(), exponent as nat)),
{
    let pb = PreciseNumber { value: (U256::from(base.hi) << 128) | U256::from(base.lo) };
    pb.checked_pow(exponent).map(
        |c| FixedPoint { hi: (c.value >> 128).as_u128(), lo: c.value.low_u128() },
    )
}

/// The fixed number of Taylor terms in the exponential kernel.
pub const EXP_TAYLOR_TERMS: u32 = 25;

/// The sum accumulated by the remaining `terms` Taylor rounds of the
/// exponential kernel at argument `r` (scaled by `ONE`), with the current
/// term `term`, the partial sum `sum`, and the next term index `j`.
pub open spec fn exp_taylor(r: int, term: int, sum: int, j: nat, terms: nat) -> int
    decreases terms,
{
    if terms == 0 {
        sum
    } else {
        let term2 = (term * r) / ((j as int) * ONE);
        exp_taylor(r, term2, sum + term2, j + 1, (terms - 1) as nat)
    }
}

/// Each Taylor term is no larger than the one before it, so the sum grows
/// by at most one unit per remaining round.
proof fn lemma_exp_taylor_bound(r: int, term: int, sum: int, j: nat, terms: nat)
    requires
        0 <= r < ONE,
        0 <= term <= ONE,
        0 <= sum,
        j >= 1,
    ensures
        sum <= exp_taylor(r, term, sum, j, terms) <= sum + terms * ONE,
    decreases terms,
{
    if terms > 0 {
        let jj = (j as int) * ONE;
        assert(jj >= ONE) by (nonlinear_arith)
            requires
                jj == (j as int) * ONE,
                j >= 1,
                ONE > 0,
        ;
        assert(term * r >= 0) by (nonlinear_arith)
            requires
                term >= 0,
                r >= 0,
        ;
        assert(term * r < jj * (term + 1)) by (nonlinear_arith)
            requires
                0 <= r < ONE,
                0 <= term,
                jj >= ONE,
        ;
        lemma_div_pos_is_pos(term * r, jj);
        lemma_multiply_divide_lt(term * r, jj, term + 1);
        let term2 = (term * r) / jj;
        lemma_exp_taylor_bound(r, term2, sum + term2, j + 1, (terms - 1) as nat);
    }
}

/// The value that the exponential kernel computes for the scaled argument
/// `t` (standing for `t / ONE`): the remainder of `t` by `LN2` fed to a
/// Taylor sum, doubled once per whole multiple of `LN2`.
pub open spec fn exp_scaled_approx(t: int) -> int {
    pow2((t / (LN2 as int)) as nat) * exp_taylor(
        t % (LN2 as int),
        ONE as int,
        ONE as int,
        1,
        EXP_TAYLOR_TERMS as nat,
    )
}

/// The exponential of the scaled argument `t`, as [`exp_scaled_approx`].
fn exp_scaled(t: u128) -> (r: FixedPoint)
    requires
        t <= 89 * LN2,
    ensures
        r.val() == exp_scaled_approx(t as int),
{
    let k: u128 = t / LN2;
    let rem: u128 = t % LN2;
    let ghost total = exp_taylor(
        rem as int,
        ONE as int,
        ONE as int,
        1,
        EXP_TAYLOR_TERMS as nat,
    );
    proof {
        lemma_exp_taylor_bound(rem as int, ONE as int, ONE as int, 1, EXP_TAYLOR_TERMS as nat);
    }
    let mut term: u128 = ONE;
    let mut sum: u128 = ONE;
    let mut j: u32 = 1;
    while j <= EXP_TAYLOR_TERMS
        invariant
            1 <= j <= EXP_TAYLOR_TERMS + 1,
            rem == t % LN2,
            rem < LN2,
            term <= ONE,
            ONE <= sum,
            sum + (EXP_TAYLOR_TERMS + 1 - j) * ONE <= (EXP_TAYLOR_TERMS + 1) * ONE,
            exp_taylor(
                rem as int,
                term as int,
                sum as int,
                j as nat,
                (EXP_TAYLOR_TERMS + 1 - j) as nat,
            ) == total,
        decreases EXP_TAYLOR_TERMS + 1 - j,
    {
        proof {
            let jj = (j as u128 as int) * ONE;
            assert(jj >= ONE) by (nonlinear_arith)
                requires
                    jj == (j as u128 as int) * ONE,
                    j as u128 >= 1,
                    ONE > 0,
            ;
            assert(term * rem >= 0 && term * rem <= ONE * LN2) by (nonlinear_arith)
                requires
                    0 <= term <= ONE,
                    0 <= rem <= LN2,
            ;
            assert(term * rem < jj * (term + 1)) by (nonlinear_arith)
                requires
                    0 <= rem < ONE,
                    0 <= term,
                    jj >= ONE,
            ;
            lemma_div_pos_is_pos(term * rem, jj);
            lemma_multiply_divide_lt(term * rem, jj, term as int + 1);
        }
        term = (term * rem) / ((j as u128) * ONE);
        sum = sum + term;
        j = j + 1;
    }
    let mut result = FixedPoint::from_raw(sum);
    let ghost sum0 = sum as int;
    let mut i: u32 = 0;
    proof {
        lemma_div_by_multiple(89, LN2 as int);
        lemma_div_is_ordered(t as int, 89 * (LN2 as int), LN2 as int);
        lemma_div_pos_is_pos(t as int, LN2 as int);
    }
    let k32: u32 = k as u32;
    proof {
        lemma2_to64();
        assert(pow2(0) == 1);
        assert(k32 == t as int / (LN2 as int));
    }
    while i < k32
        invariant
            i <= k32,
            k32 <= 89,
            result.val() == sum0 * pow2(i as nat),
            0 < sum0 <= (EXP_TAYLOR_TERMS + 1) * ONE,
        decreases k32 - i,
    {
        proof {
            lemma_pow2_89_literal();
            lemma_pow2_pos((i + 1) as nat);
            let e1 = (i + 1) as nat;
            if e1 < 89 {
                lemma_pow2_strictly_increases(e1, 89);
            }
            lemma_pow2_unfold((i + 1) as nat);
            assert(sum0 * pow2((i + 1) as nat) <= ((EXP_TAYLOR_TERMS + 1) * ONE) * pow2(89))
                by (nonlinear_arith)
                requires
                    0 < sum0 <= (EXP_TAYLOR_TERMS + 1) * ONE,
                    0 < pow2((i + 1) as nat) <= pow2(89),
            ;
            assert(sum0 * pow2((i + 1) as nat) == 2 * (sum0 * pow2(i as nat)))
                by (nonlinear_arith)
                requires
                    pow2((i + 1) as nat) == 2 * pow2(i as nat),
            ;
        }
        result = match result.checked_add(&result) {
            Ok(doubled) => doubled,
            Err(_) => unreached(),
        };
        i = i + 1;
    }
    proof {
        assert(sum0 == exp_taylor(rem as int, ONE as int, ONE as int, 1, EXP_TAYLOR_TERMS as nat));
        assert(result.val() == sum0 * pow2(k32 as nat));
        assert(k32 as int == (t as int) / (LN2 as int));
        assert(rem as int == (t as int) % (LN2 as int));
        assert(exp_scaled_approx(t as int) == pow2(((t as int) / (LN2 as int)) as nat)
            * exp_taylor(
            (t as int) % (LN2 as int),
            ONE as int,
            ONE as int,
            1,
            EXP_TAYLOR_TERMS as nat,
        ));
        assert(sum0 * pow2(k32 as nat) == pow2(k32 as nat) * sum0) by (nonlinear_arith);
        assert(result.val() == exp_scaled_approx(t as int));
    }
    result
}

/// The magnitude of `base ^ exponent` for fixed-point `base` and
/// `exponent`, and the exact conditions under which the computation
/// succeeds.
///
/// A whole exponent is computed exactly by the squaring loop [`pn_pow`]. An
/// exponent with a fractional part `f` requires a base of at least one that
/// fits `u128`; the fractional factor is then the exponential of `f` times
/// the logarithm of the base, and multiplies the whole part.
pub open spec fn pow_fraction_spec(b: int, e: int) -> Option<int> {
    let w = e / (ONE as int);
    let f = e % (ONE as int);
    if f == 0 {
        if w <= u128::MAX {
            pn_pow(b, w as nat)
        } else {
            None
        }
    } else if b < ONE || b > u128::MAX || w > u128::MAX {
        None
    } else {
        let lnb = ln_scaled_approx(b as nat);
        let t = (f * lnb + HALF) / (ONE as int);
        let ep = exp_scaled_approx(t);
        match pn_pow(b, w as nat) {
            None => None,
            Some(wp) => pn_mul(wp, ep),
        }
    }
}

/// A zero exponent yields exactly one, whatever the base.
pub proof fn lemma_pow_fraction_zero_exponent(b: int)
    ensures
        pow_fraction_spec(b, 0) == Some(ONE as int),
{
    lemma_fundamental_div_mod_converse(0, ONE as int, 0, 0);
}

/// An exponent of exactly one yields exactly the base.
pub proof fn lemma_pow_fraction_unit_exponent(b: int)
    ensures
        pow_fraction_spec(b, ONE as int) == Some(b),
{
    lemma_fundamental_div_mod_converse(ONE as int, ONE as int, 1, 0);
}

/// An exponent of exactly two on a whole base is exact: squaring the
/// fixed-point value of the plain integer `m` yields the fixed-point value
/// of `m * m`, with no rounding, whenever the raw product is representable.
pub proof fn lemma_pow_fraction_whole_square(m: int)
    requires
        m >= 0,
        (m * ONE) * (m * ONE) + HALF < p256(),
    ensures
        pow_fraction_spec(m * ONE, 2 * ONE) == Some(m * (m * ONE)),
{
    lemma_fundamental_div_mod_converse(2 * ONE, ONE as int, 2, 0);
    let b = m * ONE;
    assert(b * b == (m * (m * ONE)) * ONE) by (nonlinear_arith)
        requires
            b == m * ONE,
    ;
    assert(m * (m * ONE) >= 0) by (nonlinear_arith)
        requires
            m >= 0,
            ONE > 0,
    ;
    lemma_fundamental_div_mod_converse(b * b + HALF, ONE as int, m * (m * ONE), HALF as int);
    assert(pn_mul(b, b) == Some(m * (m * ONE)));
    let s = m * (m * ONE);
    assert(ONE * s == s * ONE) by (nonlinear_arith);
    lemma_fundamental_div_mod_converse((ONE as int) * s + HALF, ONE as int, s, HALF as int);
    assert(pn_mul(ONE as int, s) == Some(s));
    reveal_with_fuel(pn_pow_loop, 3);
    assert(pn_pow_loop(s, s, 0) == Some(s));
    assert(pn_pow_loop(ONE as int, b, 1) == Some(s));
}

/// `base` raised to the possibly fractional non-negative `exponent`.
///
/// A zero exponent yields exactly one and a whole exponent is computed by
/// exact repeated squaring; otherwise the fractional remainder is
/// approximated through the logarithm and exponential kernels. The
/// `requires` admits exactly the inputs on which no intermediate step
/// overflows, which [`pow_fraction_spec`] states in full.
pub fn checked_pow_fraction(base: &FixedPoint, exp: &FixedPoint) -> (r: FixedPoint)
    requires
        pow_fraction_spec(base.val(), exp.val()) is Some,
    ensures
        r.val() == pow_fraction_spec(base.val(), exp.val())->Some_0,
{
    let ghost e = exp.val();
    let ghost b = base.val();
    let ghost w = e / (ONE as int);
    let ghost f = e % (ONE as int);
    proof {
        lemma_fundamental_div_mod(e, ONE as int);
        lemma_div_pos_is_pos(e, ONE as int);
        lemma_pn_pow_in_range(b, w as nat);
    }
    let whole_fp = exp.floor();
    let frac = match exp.checked_sub(&whole_fp) {
        Ok(difference) => difference,
        Err(_) => unreached(),
    };
    proof {
        assert(frac.val() == f);
        assert(frac.hi == 0);
        // the whole part narrows back exactly
        lemma_fundamental_div_mod_converse(w * ONE + HALF, ONE as int, w, HALF as int);
    }
    let whole: u128 = match whole_fp.to_imprecise() {
        Ok(value) => value,
        Err(_) => unreached(),
    };
    if frac.hi == 0 && frac.lo == 0 {
        match pn_pow_raw(base, whole) {
            Some(power) => power,
            None => unreached(),
        }
    } else {
        proof {
            assert(base.hi == 0);
        }
        let lnb_fp = log_scaled(base.lo);
        proof {
            assert(lnb_fp.hi == 0);
        }
        let lnb: u128 = lnb_fp.lo;
        proof {
            assert(frac.lo * lnb >= 0 && frac.lo * lnb <= ONE * (89 * LN2)) by (nonlinear_arith)
                requires
                    0 <= frac.lo <= ONE,
                    0 <= lnb <= 89 * LN2,
            ;
            assert(frac.lo * lnb + HALF < ONE * (89 * LN2 + 1)) by (nonlinear_arith)
                requires
                    0 <= frac.lo <= ONE - 1,
                    0 <= lnb <= 89 * LN2,
                    ONE == 1_000_000_000_000,
                    HALF == 500_000_000_000,
                    LN2 == 693_147_180_560,
            ;
            lemma_div_pos_is_pos(frac.lo * lnb + HALF, ONE as int);
            lemma_multiply_divide_lt(frac.lo * lnb + HALF, ONE as int, 89 * LN2 + 1);
        }
        let t: u128 = (frac.lo * lnb + HALF) / ONE;
        let ep = exp_scaled(t);
        let wp = match pn_pow_raw(base, whole) {
            Some(power) => power,
            None => unreached(),
        };
        match wp.checked_mul(&ep) {
            Ok(value) => value,
            Err(_) => unreached(),
        }
    }
}

/// The signed number `(magnitude, is_negative)` as a mathematical integer.
pub open spec fn signed_value(magnitude: int, is_negative: bool) -> int {
    if is_negative {
        -magnitude
    } else {
        magnitude
    }
}

/// Sign-magnitude addition over the unsigned fixed-point type.
///
/// Operands of one sign add their magnitudes and keep it; operands of
/// opposite sign subtract the smaller magnitude from the larger and take the
/// sign of the larger, and a zero difference is always reported
/// non-negative.
pub fn signed_addition(
    lhs: &FixedPoint,
    lhs_signed: bool,
    rhs: &FixedPoint,
    rhs_signed: bool,
) -> (r: (FixedPoint, bool))
    requires
        lhs_signed == rhs_signed ==> lhs.val() + rhs.val() < p256(),
    ensures
        signed_value(r.0.val(), r.1) == signed_value(lhs.val(), lhs_signed) + signed_value(
            rhs.val(),
            rhs_signed,
        ),
        lhs_signed == rhs_signed ==> r.1 == lhs_signed,
        lhs_signed != rhs_signed && lhs.val() == rhs.val() ==> r.1 == false,
        lhs_signed != rhs_signed && lhs.val() > rhs.val() ==> r.1 == lhs_signed,
        lhs_signed != rhs_signed && lhs.val() < rhs.val() ==> r.1 == rhs_signed,
{
    if lhs_signed == rhs_signed {
        match lhs.checked_add(rhs) {
            Ok(magnitude) => (magnitude, lhs_signed),
            Err(_) => unreached(),
        }
    } else {
        let (difference, swapped) = lhs.unsigned_sub(rhs);
        if difference.hi == 0 && difference.lo == 0 {
            (difference, false)
        } else if swapped {
            (difference, rhs_signed)
        } else {
            (difference, lhs_signed)
        }
    }
}

/// Sign-magnitude multiplication over the unsigned fixed-point type.
///
/// The magnitude is the fixed-point product of the magnitudes and the sign
/// is the exclusive or of the operand signs, also when a magnitude is zero.
pub fn signed_mul(
    lhs: &FixedPoint,
    lhs_signed: bool,
    rhs: &FixedPoint,
    rhs_signed: bool,
) -> (r: (FixedPoint, bool))
    requires
        pn_mul(lhs.val(), rhs.val()) is Some,
    ensures
        r.0.val() == pn_mul(lhs.val(), rhs.val())->Some_0,
        r.1 == (lhs_signed != rhs_signed),
{
    match lhs.checked_mul(rhs) {
        Ok(magnitude) => (magnitude, lhs_signed != rhs_signed),
        Err(_) => unreached(),
    }
}

} // verus!
