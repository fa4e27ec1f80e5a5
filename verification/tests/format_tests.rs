use hegemon::format::{format_quantity, Quantity};
use hegemon::format::format_duration;

fn quantity(negative: bool, mantissa: u64, exponent: i32) -> Quantity {
    Quantity { negative, mantissa, exponent }
}

#[test]
fn test_format_duration() {
    assert_eq!(format_duration(0, "A", "B"), "A0Bs");
    assert_eq!(format_duration(1000, "A", "B"), "A1Bs");
    assert_eq!(format_duration(60000, "A", "B"), "A1Bm");
    assert_eq!(format_duration(61000, "A", "B"), "A1BmA1Bs");
    assert_eq!(format_duration(3600000, "A", "B"), "A1Bh");
    assert_eq!(format_duration(3660000, "A", "B"), "A1BhA1Bm");
    assert_eq!(format_duration(3601000, "A", "B"), "A1BhA1Bs");
    assert_eq!(format_duration(3661000, "A", "B"), "A1BhA1BmA1Bs");
    assert_eq!(format_duration(100000000, "A", "B"), "A27BhA46BmA40Bs");
}

#[test]
fn test_format_duration_fractional_seconds() {
    // A fractional remainder is truncated to one fractional digit.
    assert_eq!(format_duration(1500, "A", "B"), "A1.5Bs");
    assert_eq!(format_duration(61061, "A", "B"), "A1BmA1.0Bs");
    assert_eq!(format_duration(250, "A", "B"), "A0.2Bs");
    assert_eq!(format_duration(999, "A", "B"), "A0.9Bs");
}

#[test]
fn test_format_quantity() {
    assert_eq!(format_quantity(quantity(false, 0, 0), "C", true, 0, "A", "B"), "A0BC");
    assert_eq!(format_quantity(quantity(false, 1, -3), "C", true, 0, "A", "B"), "A1BmC");
    assert_eq!(format_quantity(quantity(false, 999, -3), "C", true, 0, "A", "B"), "A999BmC");
    assert_eq!(format_quantity(quantity(false, 1, 0), "C", true, 0, "A", "B"), "A1BC");
    assert_eq!(format_quantity(quantity(false, 999, 0), "C", true, 0, "A", "B"), "A999BC");
    assert_eq!(format_quantity(quantity(false, 1000, 0), "C", true, 0, "A", "B"), "A1BkC");
    assert_eq!(format_quantity(quantity(false, 9999, -4), "C", true, 0, "A", "B"), "A1BC");
    assert_eq!(format_quantity(quantity(false, 9999, -1), "C", true, 0, "A", "B"), "A1BkC");
    assert_eq!(format_quantity(quantity(false, 9999, 2), "C", true, 0, "A", "B"), "A1BMC");
    assert_eq!(
        format_quantity(quantity(false, 123456789, 0), "C", true, 3, "A", "B"),
        "A123.457BMC",
    );
    assert_eq!(
        format_quantity(quantity(false, 123456789, 0), "C", false, 3, "A", "B"),
        "A123456789BC",
    );
    assert_eq!(
        format_quantity(quantity(true, 123456789, -17), "C", true, 3, "A", "B"),
        "A-1.235BnC",
    );
    assert_eq!(
        format_quantity(quantity(true, 123456789, -17), "C", false, 3, "A", "B"),
        "A-0BC",
    );
    assert_eq!(format_quantity(quantity(false, 1, 100), "C", true, 0, "A", "B"), "A10B?C");
    assert_eq!(format_quantity(quantity(false, 1, -100), "C", true, 0, "A", "B"), "A100B?C");
}
