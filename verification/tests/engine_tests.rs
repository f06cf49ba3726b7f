use hydra_math::checks::{
    check_mint_addresses, check_slippage, post_transfer_checks, swap_direction, MintId, PoolError,
    SwapDirection,
};
use hydra_math::decimal::Decimal;
use hydra_math::error::MathError;
use hydra_math::fees::calculate_fee;
use hydra_math::fixed::FixedPoint;
use hydra_math::math::sqrt;
use hydra_math::price::calc_price;
use hydra_math::swap_calculator::SwapCalculator;

#[test]
fn test_new_scales_by_one() {
    assert_eq!(FixedPoint::new(2), FixedPoint::from_raw(2_000_000_000_000));
    assert_eq!(FixedPoint::new(0), FixedPoint::from_raw(0));
}

#[test]
fn test_checked_add_exact() {
    let sum = FixedPoint::new(1).checked_add(&FixedPoint::new(2)).unwrap();
    assert_eq!(sum, FixedPoint::new(3));
}

#[test]
fn test_checked_sub_exact_and_underflow() {
    let difference = FixedPoint::new(5).checked_sub(&FixedPoint::new(3)).unwrap();
    assert_eq!(difference, FixedPoint::new(2));
    assert_eq!(
        FixedPoint::new(1).checked_sub(&FixedPoint::new(2)),
        Err(MathError::Underflow)
    );
}

#[test]
fn test_checked_mul_exact_and_overflow() {
    let product = FixedPoint::new(42).checked_mul(&FixedPoint::new(42)).unwrap();
    assert_eq!(product, FixedPoint::new(1764));
    assert_eq!(
        FixedPoint::new(u128::MAX).checked_mul(&FixedPoint::new(u128::MAX)),
        Err(MathError::Overflow)
    );
}

#[test]
fn test_checked_div_exact_and_zero() {
    let quarter = FixedPoint::new(1).checked_div(&FixedPoint::new(4)).unwrap();
    assert_eq!(quarter, FixedPoint::from_raw(250_000_000_000));
    assert_eq!(
        FixedPoint::new(1).checked_div(&FixedPoint::new(0)),
        Err(MathError::DivisionByZero)
    );
}

#[test]
fn test_checked_div_ceil_rounds_up() {
    let third_up = FixedPoint::new(1).checked_div_ceil(&FixedPoint::new(3)).unwrap();
    assert_eq!(third_up, FixedPoint::from_raw(333_333_333_334));
    let exact = FixedPoint::new(6).checked_div_ceil(&FixedPoint::new(3)).unwrap();
    assert_eq!(exact, FixedPoint::new(2));
    assert_eq!(
        FixedPoint::new(1).checked_div_ceil(&FixedPoint::new(0)),
        Err(MathError::DivisionByZero)
    );
}

#[test]
fn test_unsigned_sub_orders_magnitudes() {
    let (difference, negative) = FixedPoint::new(3).unsigned_sub(&FixedPoint::new(5));
    assert_eq!(difference, FixedPoint::new(2));
    assert!(negative);
    let (difference, negative) = FixedPoint::new(5).unsigned_sub(&FixedPoint::new(3));
    assert_eq!(difference, FixedPoint::new(2));
    assert!(!negative);
}

#[test]
fn test_floor_ceiling_imprecise() {
    let one_and_a_half = FixedPoint::from_raw(1_500_000_000_000);
    assert_eq!(one_and_a_half.floor(), FixedPoint::new(1));
    assert_eq!(one_and_a_half.ceiling().unwrap(), FixedPoint::new(2));
    // rounds half up
    assert_eq!(one_and_a_half.to_imprecise().unwrap(), 2);
    let just_below = FixedPoint::from_raw(1_499_999_999_999);
    assert_eq!(just_below.to_imprecise().unwrap(), 1);
}

#[test]
fn test_round_trip_integer_narrowing() {
    let value = FixedPoint::new(245_850_922);
    assert_eq!(value.to_imprecise().unwrap(), 245_850_922);
    assert_eq!(value.floor_u64().unwrap(), 245_850_922);
    assert_eq!(value.ceil_u64().unwrap(), 245_850_922);
}

#[test]
fn test_narrowing_unrepresentable() {
    let too_wide = FixedPoint::new(18_446_744_073_709_551_616);
    assert_eq!(too_wide.floor_u64(), Err(MathError::Unrepresentable));
    assert_eq!(too_wide.ceil_u64(), Err(MathError::Unrepresentable));
}

#[test]
fn test_comparisons() {
    let two = FixedPoint::new(2);
    let three = FixedPoint::new(3);
    assert!(two.less_than(&three));
    assert!(three.greater_than(&two));
    assert!(two.less_than_or_equal(&two));
    assert!(two.greater_than_or_equal(&two));
    assert!(!three.less_than(&two));
    assert!(two.almost_eq(&three, 1_000_000_000_000));
    assert!(!two.almost_eq(&three, 999_999_999_999));
}

#[test]
fn test_sqrt_rounds_to_nearest() {
    assert_eq!(sqrt(0), 0);
    assert_eq!(sqrt(1), 1);
    assert_eq!(sqrt(2), 1);
    assert_eq!(sqrt(3), 2);
    assert_eq!(sqrt(4), 2);
    assert_eq!(sqrt(6), 2);
    assert_eq!(sqrt(7), 3);
}

#[test]
fn test_calculate_fee_overflow_and_unrepresentable() {
    // the intermediate product leaves u128
    assert_eq!(calculate_fee(u128::MAX, 2, 1), None);
    // the fee itself does not fit u64: an explicit failure, never truncation
    assert_eq!(calculate_fee(u128::MAX, 1, 1), None);
    assert_eq!(calculate_fee(u64::MAX as u128 + 1, 1, 1), None);
    // the largest representable fee still passes
    assert_eq!(calculate_fee(u64::MAX as u128, 1, 1), Some(u64::MAX));
}

#[test]
fn test_decimal_rescaling() {
    let amount = Decimal::from_scaled_amount(5, 6);
    assert_eq!(
        amount.to_scale(12).unwrap(),
        Decimal { value: 5_000_000, scale: 12 }
    );
    assert_eq!(amount.to_scale(3), Err(MathError::Unrepresentable));
    assert_eq!(amount.to_scale(6).unwrap(), amount);
}

#[test]
fn test_decimal_div() {
    let numerator = Decimal::from_scaled_amount(1, 6);
    let denominator = Decimal::from_scaled_amount(500, 6);
    assert_eq!(
        numerator.div(&denominator).unwrap(),
        Decimal { value: 2000, scale: 6 }
    );
    let zero = Decimal::from_scaled_amount(0, 6);
    assert_eq!(numerator.div(&zero), Err(MathError::DivisionByZero));
}

#[test]
fn test_decimal_into_fixed() {
    let whole = Decimal::from_scaled_amount(7, 0);
    assert_eq!(whole.into_fixed().unwrap(), FixedPoint::new(7));
    let too_fine = Decimal::from_scaled_amount(7, 13);
    assert_eq!(too_fine.into_fixed(), Err(MathError::Unrepresentable));
}

#[test]
fn test_swap_x_to_y_scenario() {
    let x0 = Decimal::from_scaled_amount(37_000_000, 6);
    let y0 = Decimal::from_scaled_amount(126_000_000, 6);
    let c = Decimal::from_scaled_amount(0, 6);
    let i = Decimal::from_scaled_amount(0, 6);
    let fee = Decimal::from_scaled_amount(1, 6)
        .div(&Decimal::from_scaled_amount(500, 6))
        .unwrap();
    let swap = SwapCalculator::new(x0, y0, c, i, fee).unwrap();

    let result = swap
        .swap_x_to_y_amm(&Decimal::from_scaled_amount(3_000_000, 6))
        .unwrap();
    assert_eq!(result.k, FixedPoint::from_raw(4_662_000_000_000_000));
    assert_eq!(result.x_new, FixedPoint::from_raw(40_000_000_000_000));
    assert_eq!(result.y_new, FixedPoint::from_raw(116_567_485_122_769));
    assert_eq!(result.delta_x, FixedPoint::from_raw(3_000_000_000_000));
    assert_eq!(result.delta_y, FixedPoint::from_raw(9_432_514_877_231));
    assert_eq!(result.delta_y_down().unwrap(), 9);
    assert_eq!(result.delta_y_up().unwrap(), 10);
    assert_eq!(result.x_new_up().unwrap(), 40);
    assert_eq!(result.y_new_up().unwrap(), 117);

    // the pool never loses value: the recomputed invariant covers k
    let post_invariant = result.x_new.checked_mul(&result.y_new).unwrap();
    assert!(post_invariant.greater_than_or_equal(&result.k));

    // the floor projection never exceeds the ceiling projection
    assert!(result.delta_y_down().unwrap() <= result.delta_y_up().unwrap());
}

#[test]
fn test_swap_y_to_x_mirrors() {
    let x0 = Decimal::from_scaled_amount(126_000_000, 6);
    let y0 = Decimal::from_scaled_amount(37_000_000, 6);
    let c = Decimal::from_scaled_amount(0, 6);
    let i = Decimal::from_scaled_amount(0, 6);
    let fee = Decimal::from_scaled_amount(1, 6)
        .div(&Decimal::from_scaled_amount(500, 6))
        .unwrap();
    let swap = SwapCalculator::new(x0, y0, c, i, fee).unwrap();

    let result = swap
        .swap_y_to_x_amm(&Decimal::from_scaled_amount(3_000_000, 6))
        .unwrap();
    // mirror of the x-to-y scenario with the reserves exchanged
    assert_eq!(result.y_new, FixedPoint::from_raw(40_000_000_000_000));
    assert_eq!(result.x_new, FixedPoint::from_raw(116_567_485_122_769));
    assert_eq!(result.delta_y, FixedPoint::from_raw(3_000_000_000_000));
    assert_eq!(result.delta_x, FixedPoint::from_raw(9_432_514_877_231));
    assert_eq!(result.delta_x_down().unwrap(), 9);
    assert_eq!(result.delta_x_up().unwrap(), 10);
    assert_eq!(result.delta_x().unwrap(), 9);
    assert_eq!(result.delta_y().unwrap(), 3);
}

#[test]
fn test_swap_zero_input_exact_reserves() {
    let x0 = Decimal::from_scaled_amount(37_000_000, 6);
    let y0 = Decimal::from_scaled_amount(126_000_000, 6);
    let c = Decimal::from_scaled_amount(0, 6);
    let i = Decimal::from_scaled_amount(0, 6);
    let fee = Decimal::from_scaled_amount(0, 6);
    let swap = SwapCalculator::new(x0, y0, c, i, fee).unwrap();
    // whole reserves divide exactly, so a zero trade moves nothing
    let result = swap.swap_x_to_y_amm(&Decimal::from_scaled_amount(0, 6)).unwrap();
    assert_eq!(result.y_new, FixedPoint::new(126));
    assert_eq!(result.delta_y, FixedPoint::new(0));
}

#[test]
fn test_swap_zero_input_rounded_reserves_fails() {
    // the invariant of these tiny reserves rounds up by half a unit, so even
    // a zero trade would ask the pool for more than it holds and is refused
    let x0 = Decimal::from_scaled_amount(1, 12);
    let y0 = Decimal::from_scaled_amount(600_000_000_000, 12);
    let zero = Decimal::from_scaled_amount(0, 12);
    let swap = SwapCalculator::new(x0, y0, zero, zero, zero).unwrap();
    let result = swap.swap_x_to_y_amm(&Decimal::from_scaled_amount(0, 12));
    assert_eq!(result, Err(MathError::Underflow));
}

#[test]
fn test_compute_k() {
    let x0 = Decimal::from_scaled_amount(37_000_000, 6);
    let y0 = Decimal::from_scaled_amount(126_000_000, 6);
    let zero = Decimal::from_scaled_amount(0, 6);
    let swap = SwapCalculator::new(x0, y0, zero, zero, zero).unwrap();
    assert_eq!(swap.compute_k().unwrap(), FixedPoint::new(4662));
}

#[test]
fn test_check_slippage_bounds() {
    assert_eq!(check_slippage(&100, &90, &100, &95), Ok(()));
    assert_eq!(
        check_slippage(&100, &96, &100, &95),
        Err(PoolError::SlippageExceeded)
    );
    assert_eq!(
        check_slippage(&100, &90, &101, &95),
        Err(PoolError::SlippageExceeded)
    );
}

#[test]
fn test_check_mint_addresses_and_direction() {
    let x = MintId { hi: 1, lo: 10 };
    let y = MintId { hi: 2, lo: 20 };
    let other = MintId { hi: 3, lo: 30 };
    assert_eq!(check_mint_addresses(&x, &y, &x, &y), Ok(()));
    assert_eq!(
        check_mint_addresses(&other, &y, &x, &y),
        Err(PoolError::InvalidMintAddress)
    );
    assert_eq!(swap_direction(&x, &y, &x, &y), Ok(SwapDirection::XToY));
    assert_eq!(swap_direction(&y, &x, &x, &y), Ok(SwapDirection::YToX));
    assert_eq!(
        swap_direction(&x, &x, &x, &y),
        Err(PoolError::InvalidMintAddress)
    );
    assert_eq!(
        swap_direction(&other, &x, &x, &y),
        Err(PoolError::InvalidMintAddress)
    );
}

#[test]
fn test_post_transfer_checks_match() {
    assert_eq!(post_transfer_checks(40, 117, 40, 117), Ok(()));
    assert_eq!(
        post_transfer_checks(40, 117, 40, 116),
        Err(PoolError::InvalidVaultToSwapResultAmounts)
    );
    assert_eq!(
        post_transfer_checks(41, 117, 40, 117),
        Err(PoolError::InvalidVaultToSwapResultAmounts)
    );
}

#[test]
fn test_calc_price_ratio() {
    assert_eq!(calc_price(10, 4), (2_500_000_000, 2));
    assert_eq!(calc_price(5, 0), (0, 0));
    assert_eq!(calc_price(0, 5), (0, 0));
}
