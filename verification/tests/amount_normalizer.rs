use evm_transfer::amount::normalize;
use evm_transfer::error::TransferError;

fn ok(amount: &str, precision: u32) -> u64 {
    match normalize(amount, precision) {
        Ok(v) => v,
        Err(_) => panic!("expected {:?} to normalize", amount),
    }
}

fn rejected(amount: &str, precision: u32) -> String {
    match normalize(amount, precision) {
        Ok(v) => panic!("expected {:?} to be rejected, got {}", amount, v),
        Err(TransferError::InvalidAmountFormat(m)) => m,
        Err(e) => panic!("expected InvalidAmountFormat, got {:?}", e),
    }
}

#[test]
fn zero_normalizes_to_zero() {
    assert_eq!(ok("0", 18), 0);
}

#[test]
fn whole_units_scale_exactly() {
    assert_eq!(ok("1", 18), 1_000_000_000_000_000_000);
    assert_eq!(ok("2", 18), 2_000_000_000_000_000_000);
    assert_eq!(ok("007", 18), 7_000_000_000_000_000_000);
}

#[test]
fn fractional_amounts_scale_exactly() {
    assert_eq!(ok("1.5", 18), 1_500_000_000_000_000_000);
    assert_eq!(ok("0.000000000000000001", 18), 1);
    assert_eq!(ok("12.34", 2), 1234);
    assert_eq!(ok("+1.5", 18), 1_500_000_000_000_000_000);
}

#[test]
fn excess_fractional_digits_are_truncated() {
    assert_eq!(ok("1.1234567890123456789", 18), 1_123_456_789_012_345_678);
    assert_eq!(ok("5.9", 0), 5);
    assert_eq!(ok("0.0000000000000000001", 18), 0);
}

#[test]
fn negative_amounts_are_rejected() {
    for p in [0u32, 1, 18, 30] {
        let m = rejected("-1", p);
        assert_eq!(m, "Failed to convert to integer");
    }
    assert_eq!(rejected("-0.5", 18), "Failed to convert to integer");
    assert_eq!(rejected("-0.000000000000000000001", 18), "Failed to convert to integer");
}

#[test]
fn negative_zero_is_zero() {
    assert_eq!(ok("-0", 18), 0);
    assert_eq!(ok("-0.000", 18), 0);
}

#[test]
fn malformed_amounts_are_rejected() {
    for p in [0u32, 18] {
        for bad in ["abc", "", ".", "1.", ".5", "1.2.3", "1e5", "1 0", "+", "-", "1,5", "0x1"] {
            let m = rejected(bad, p);
            assert_eq!(m, "Failed to parse amount");
        }
    }
}

#[test]
fn values_past_u64_are_rejected() {
    assert_eq!(ok("18.446744073709551615", 18), u64::MAX);
    assert_eq!(rejected("18.446744073709551616", 18), "Failed to convert to integer");
    assert_eq!(ok("18446744073709551615", 0), u64::MAX);
    assert_eq!(rejected("18446744073709551616", 0), "Failed to convert to integer");
    assert_eq!(rejected("99999999999999999999999999999999999999", 18), "Failed to convert to integer");
}

#[test]
fn precision_zero_keeps_integers() {
    assert_eq!(ok("5", 0), 5);
    assert_eq!(ok("5.0", 0), 5);
}

#[test]
fn huge_precision_rejects_nonzero() {
    assert!(matches!(normalize("1", 4_000_000_000), Err(TransferError::InvalidAmountFormat(_))));
    assert_eq!(ok("0.000", 4_000_000_000), 0);
}
