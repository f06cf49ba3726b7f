use hydra_math::fixed::{FixedPoint, ONE};
use hydra_math::math::{checked_pow_fraction, log, signed_addition, signed_mul, sqrt};
use hydra_math::swap_result::SwapResult;

#[test]
fn test_precise_number_storage() {
    let pi_numerator = FixedPoint::new(245850922u128);
    let pi_denominator = FixedPoint::new(78256779u128);

    let swap = SwapResult {
        k: FixedPoint::new(1_000_000u128),
        x_new: FixedPoint::new(1010u128),
        y_new: FixedPoint::new(990u128),
        delta_x: FixedPoint::new(10u128),
        delta_y: pi_numerator.checked_div(&pi_denominator).expect("pi"),
    };
    // Test imprecise conversion
    assert_eq!(swap.k.to_imprecise().expect("u128"), 1_000_000u128);

    // Test precision up to 12 decimal places
    // 3.141592653589
    let precision = ONE;
    let expected = FixedPoint::from_raw(3_141_592_653_589u128);
    assert!(swap.delta_y.almost_eq(&expected, precision));
}

#[test]
fn test_u128_square_root() {
    // largest containing 1 to 9 once
    let x = 923_187_456u128;
    assert_eq!(sqrt(x), 30_384u128);

    // largest containing 1 to 9 two times
    let x = 998_781_235_573_146_624u128;
    assert_eq!(sqrt(x), 999_390_432u128);

    // largest containing 1 to 9 three times
    let x = 999_888_767_225_363_175_346_145_124u128;
    assert_eq!(sqrt(x), 31_621_017_808_182u128);

    let x = u128::MAX;
    assert_eq!(sqrt(x), 18_446_744_073_709_551_616u128);
}

#[test]
fn test_u128_natural_log() {
    // ln(1) = 0
    assert_eq!(log(1u128), FixedPoint::new(0u128));

    // ln(1000) = 6.907755278982137
    let precision = ONE;
    let expected = FixedPoint::from_raw(6_907_755_278_982u128);
    assert!(log(1_000u128).almost_eq(&expected, precision));

    // ln(18446744073709551615) = 44.3614195558365
    let expected = FixedPoint::from_raw(44_361_419_555_836u128);
    assert!(log(u64::MAX as u128).almost_eq(&expected, precision));
}

#[test]
fn test_checked_pow_fraction() {
    let precision = ONE;
    let base = FixedPoint::new(42u128);

    // 42^0 = 1
    let exp = FixedPoint::new(0u128);
    assert_eq!(checked_pow_fraction(&base, &exp), FixedPoint::new(1u128));

    // 42^0.25 = 2.545729895021831
    let exp = FixedPoint::new(1u128)
        .checked_div(&FixedPoint::new(4u128))
        .unwrap();
    let expected = FixedPoint::from_raw(2_545_729_895_021u128);
    assert!(checked_pow_fraction(&base, &exp).almost_eq(&expected, precision));

    // 42^0.5 = 6.48074069840786
    let exp = FixedPoint::new(1u128)
        .checked_div(&FixedPoint::new(2u128))
        .unwrap();
    let expected = FixedPoint::from_raw(6_480_740_698_407u128);
    assert!(checked_pow_fraction(&base, &exp).almost_eq(&expected, precision));

    // 42^1 = 42
    let exp = FixedPoint::new(1u128);
    assert_eq!(checked_pow_fraction(&base, &exp), FixedPoint::new(42u128));

    // 42^1.25 = 106.920655590916882
    let exp = FixedPoint::new(5u128)
        .checked_div(&FixedPoint::new(4u128))
        .unwrap();
    let expected = FixedPoint::from_raw(106_920_655_590_916u128);
    assert!(checked_pow_fraction(&base, &exp).almost_eq(&expected, precision));

    // 42^1.5 = 272.19110933313013
    let exp = FixedPoint::new(3u128)
        .checked_div(&FixedPoint::new(2u128))
        .unwrap();
    let expected = FixedPoint::from_raw(272_191_109_333_130u128);
    assert!(checked_pow_fraction(&base, &exp).almost_eq(&expected, precision));

    // 42^2 = 1764
    let exp = FixedPoint::new(2u128);
    assert_eq!(checked_pow_fraction(&base, &exp), FixedPoint::new(1764u128));
}

#[test]
fn test_signed_addition() {
    // -4 + -3 = -7
    let lhs = FixedPoint::new(4);
    let lhs_signed = true;
    let rhs = FixedPoint::new(3);
    let rhs_signed = true;
    let expected = FixedPoint::new(7);
    let expected_signed = true;
    assert_eq!(
        signed_addition(&lhs, lhs_signed, &rhs, rhs_signed),
        (expected, expected_signed)
    );

    // -1 + 1 = 0
    let lhs = FixedPoint::new(1);
    let lhs_signed = true;
    let rhs = FixedPoint::new(1);
    let rhs_signed = false;
    let expected = FixedPoint::new(0);
    let expected_signed = false;
    assert_eq!(
        signed_addition(&lhs, lhs_signed, &rhs, rhs_signed),
        (expected, expected_signed)
    );

    // 3 + -5 = -2
    let lhs = FixedPoint::new(3);
    let lhs_signed = false;
    let rhs = FixedPoint::new(5);
    let rhs_signed = true;
    let expected = FixedPoint::new(2);
    let expected_signed = true;
    assert_eq!(
        signed_addition(&lhs, lhs_signed, &rhs, rhs_signed),
        (expected, expected_signed)
    );

    // -5 + 3 = -2
    let lhs = FixedPoint::new(5);
    let lhs_signed = true;
    let rhs = FixedPoint::new(3);
    let rhs_signed = false;
    let expected = FixedPoint::new(2);
    let expected_signed = true;
    assert_eq!(
        signed_addition(&lhs, lhs_signed, &rhs, rhs_signed),
        (expected, expected_signed)
    );

    // 5 + -2 = 3
    let lhs = FixedPoint::new(5);
    let lhs_signed = false;
    let rhs = FixedPoint::new(2);
    let rhs_signed = true;
    let expected = FixedPoint::new(3);
    let expected_signed = false;
    assert_eq!(
        signed_addition(&lhs, lhs_signed, &rhs, rhs_signed),
        (expected, expected_signed)
    );

    // -3 + 5 = 2
    let lhs = FixedPoint::new(3);
    let lhs_signed = true;
    let rhs = FixedPoint::new(5);
    let rhs_signed = false;
    let expected = FixedPoint::new(2);
    let expected_signed = false;
    assert_eq!(
        signed_addition(&lhs, lhs_signed, &rhs, rhs_signed),
        (expected, expected_signed)
    );

    // 1 + -2 = -1
    let lhs = FixedPoint::new(1);
    let lhs_signed = false;
    let rhs = FixedPoint::new(2);
    let rhs_signed = true;
    let expected = FixedPoint::new(1);
    let expected_signed = true;
    assert_eq!(
        signed_addition(&lhs, lhs_signed, &rhs, rhs_signed),
        (expected, expected_signed)
    );

    // 4 + 3 = 7
    let lhs = FixedPoint::new(4);
    let lhs_signed = false;
    let rhs = FixedPoint::new(3);
    let rhs_signed = false;
    let expected = FixedPoint::new(7);
    let expected_signed = false;
    assert_eq!(
        signed_addition(&lhs, lhs_signed, &rhs, rhs_signed),
        (expected, expected_signed)
    );
}

#[test]
fn test_signed_mul() {
    // -4 * -3 = 12
    let lhs = FixedPoint::new(4);
    let lhs_signed = true;
    let rhs = FixedPoint::new(3);
    let rhs_signed = true;
    let expected = FixedPoint::new(12);
    let expected_signed = false;
    assert_eq!(
        signed_mul(&lhs, lhs_signed, &rhs, rhs_signed),
        (expected, expected_signed)
    );

    // -4 * 3 = -12
    let lhs = FixedPoint::new(4);
    let lhs_signed = true;
    let rhs = FixedPoint::new(3);
    let rhs_signed = false;
    let expected = FixedPoint::new(12);
    let expected_signed = true;
    assert_eq!(
        signed_mul(&lhs, lhs_signed, &rhs, rhs_signed),
        (expected, expected_signed)
    );

    // 4 * -3 = -12
    let lhs = FixedPoint::new(4);
    let lhs_signed = false;
    let rhs = FixedPoint::new(3);
    let rhs_signed = true;
    let expected = FixedPoint::new(12);
    let expected_signed = true;
    assert_eq!(
        signed_mul(&lhs, lhs_signed, &rhs, rhs_signed),
        (expected, expected_signed)
    );

    // 4 * 3 = 12
    let lhs = FixedPoint::new(4);
    let lhs_signed = false;
    let rhs = FixedPoint::new(3);
    let rhs_signed = false;
    let expected = FixedPoint::new(12);
    let expected_signed = false;
    assert_eq!(
        signed_mul(&lhs, lhs_signed, &rhs, rhs_signed),
        (expected, expected_signed)
    );
}
