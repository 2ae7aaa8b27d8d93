use rust_nrm::decimal::u64_to_decimal;

#[test]
fn single_digits_render_directly() {
    for d in 0..10u64 {
        assert_eq!(u64_to_decimal(d), d.to_string());
    }
}

#[test]
fn multi_digit_numbers_render_most_significant_first() {
    assert_eq!(u64_to_decimal(10), "10");
    assert_eq!(u64_to_decimal(42), "42");
    assert_eq!(u64_to_decimal(100), "100");
    assert_eq!(u64_to_decimal(5001), "5001");
    assert_eq!(u64_to_decimal(987654321), "987654321");
}

#[test]
fn the_largest_value_renders_fully() {
    assert_eq!(u64_to_decimal(u64::MAX), "18446744073709551615");
}
