use hydra_math::fees::calculate_fee;

#[test]
fn test_calculate_fee_0n_0d() {
    let expected = 0;
    let result = calculate_fee(1_000_000, 0, 0).unwrap();
    assert_eq!(expected, result)
}

#[test]
fn test_calculate_fee_1n_0d() {
    let expected = 0;
    let result = calculate_fee(1_000_000, 1, 0).unwrap();
    assert_eq!(expected, result)
}

#[test]
fn test_calculate_fee_1n_2d() {
    let expected = 500_000;
    let result = calculate_fee(1_000_000, 1, 2).unwrap();
    assert_eq!(expected, result)
}

#[test]
fn test_calculate_1n_1000d() {
    let expected = 100;
    let result = calculate_fee(1_000_000, 1, 10_000).unwrap();
    assert_eq!(expected, result)
}

#[test]
fn test_calculate_1n_10000d() {
    let expected = 10;
    let result = calculate_fee(1_000_000, 1, 100_000).unwrap();
    assert_eq!(expected, result)
}

#[test]
fn test_calculate_1n_500d() {
    let expected = 2000;
    let result = calculate_fee(1_000_000, 1, 500).unwrap();
    assert_eq!(expected, result)
}
