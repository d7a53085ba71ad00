use size_check::sizefmt::{format_size, SizeUnit};

#[test]
fn forced_unit_ignores_magnitude() {
    let s = format_size(1_500_000, 2, SizeUnit::Decimal, Some(1));
    assert_eq!(s, "1500.00 KB");
}

#[test]
fn auto_scaling_decimal() {
    assert_eq!(format_size(0, 2, SizeUnit::Decimal, None), "0.00 B");
    assert_eq!(format_size(999, 2, SizeUnit::Decimal, None), "999.00 B");
    assert_eq!(format_size(1000, 2, SizeUnit::Decimal, None), "1.00 KB");
    assert_eq!(format_size(1_500_000, 2, SizeUnit::Decimal, None), "1.50 MB");
    assert_eq!(format_size(3_000_000_000, 2, SizeUnit::Decimal, None), "3.00 GB");
}

#[test]
fn auto_scaling_binary() {
    assert_eq!(format_size(1024, 2, SizeUnit::Binary, None), "1.00 KiB");
    assert_eq!(format_size(1536, 1, SizeUnit::Binary, None), "1.5 KiB");
    assert_eq!(format_size(1048576, 2, SizeUnit::Binary, None), "1.00 MiB");
}

#[test]
fn rounding_carries_into_integer_part() {
    // 999999 bytes is 999.999 KB; two digits round half-up over the top.
    assert_eq!(format_size(999_999, 2, SizeUnit::Decimal, None), "1000.00 KB");
}

#[test]
fn zero_decimals_prints_no_point() {
    assert_eq!(format_size(1500, 0, SizeUnit::Decimal, None), "2 KB");
    assert_eq!(format_size(1400, 0, SizeUnit::Decimal, None), "1 KB");
    assert_eq!(format_size(42, 0, SizeUnit::Decimal, None), "42 B");
}

#[test]
fn forced_unit_zero_and_large() {
    assert_eq!(format_size(512, 2, SizeUnit::Decimal, Some(0)), "512.00 B");
    assert_eq!(format_size(2_000_000_000_000_000, 2, SizeUnit::Decimal, Some(5)), "2.00 PB");
}

#[test]
fn largest_unit_caps_scaling() {
    // Far beyond a petabyte, the report stays in the largest unit.
    assert_eq!(format_size(u64::MAX, 0, SizeUnit::Decimal, None), "18447 PB");
}

#[test]
fn many_fraction_digits_stay_exact() {
    assert_eq!(format_size(1, 6, SizeUnit::Binary, Some(1)), "0.000977 KiB");
}
