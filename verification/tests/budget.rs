//! Sizes written by hand, and budgets.

use framevault::budget::{
    blocks_for_budget, parse_size, resolve_budget_bytes, SizeError, MIN_DEFAULT_BUDGET_BYTES,
};
use framevault::constants::RS_BLOCK_SIZE;

#[test]
fn parse_size_suffixes() {
    assert_eq!(parse_size("1024").unwrap(), 1024);
    assert_eq!(parse_size("1K").unwrap(), 1024);
    assert_eq!(parse_size("1k").unwrap(), 1024);
    assert_eq!(parse_size("2M").unwrap(), 2 * 1024 * 1024);
    assert_eq!(parse_size("1G").unwrap(), 1024 * 1024 * 1024);
    assert_eq!(parse_size("1.5G").unwrap(), (1.5 * 1024.0 * 1024.0 * 1024.0) as u64);
    assert_eq!(parse_size("  64M  ").unwrap(), 64 * 1024 * 1024);
}

#[test]
fn parse_size_rejects_invalid() {
    assert!(parse_size("0").is_err());
    assert!(parse_size("-5M").is_err());
    assert!(parse_size("").is_err());
    assert!(parse_size("not a size").is_err());
    assert!(parse_size("M").is_err());
}

#[test]
fn blocks_for_budget_minimum_one() {
    assert_eq!(blocks_for_budget(0), 1);
    assert_eq!(blocks_for_budget(1), 1);
    assert_eq!(blocks_for_budget(RS_BLOCK_SIZE as u64 - 1), 1);
    assert_eq!(blocks_for_budget(RS_BLOCK_SIZE as u64), 1);
    assert_eq!(blocks_for_budget(RS_BLOCK_SIZE as u64 * 4), 4);
}

#[test]
fn explicit_budget_not_floored() {
    // An explicit tiny budget is respected (down to blocks_for_budget's own
    // minimum-1 guarantee), unlike the RAM-derived default.
    let bytes = resolve_budget_bytes(Some("1K"), 1 << 40).unwrap();
    assert_eq!(bytes, 1024);
    assert!(blocks_for_budget(bytes) >= 1);
}

#[test]
fn default_budget_has_a_floor() {
    for &total in &[0u64, 1, 1 << 20, 1 << 28, 1 << 34, u64::MAX] {
        let bytes = resolve_budget_bytes(None, total).unwrap();
        assert!(bytes >= MIN_DEFAULT_BUDGET_BYTES);
        assert_eq!(bytes, ((total as f64 * 0.25) as u64).max(MIN_DEFAULT_BUDGET_BYTES));
    }
    assert_eq!(resolve_budget_bytes(None, 16 << 30), Ok(4 << 30));
}

#[test]
fn each_way_to_be_no_size() {
    assert_eq!(parse_size(" \t\u{3000}"), Err(SizeError::Empty));
    for s in ["K", ".", "+", "1e", "1e+", "1.2.3", "0x10", "1 2", "1_000", "e5", "1KB", "1\u{e9}"] {
        assert_eq!(parse_size(s), Err(SizeError::Invalid), "{s}");
    }
    for s in ["0", "-0", "0.000K", "-1", "-1e5", "inf", "-Infinity", "NaN", "1e400", "1e-400"] {
        assert_eq!(parse_size(s), Err(SizeError::NotPositive), "{s}");
    }
}

/// The size as floating point arithmetic has it.
fn reference(number: &str, unit: u64) -> Option<u64> {
    let n: f64 = number.parse().ok()?;
    if !n.is_finite() || n <= 0.0 {
        return None;
    }
    Some((n * unit as f64) as u64)
}

#[test]
fn numbers_are_rounded_like_floating_point() {
    let numbers = [
        "1",
        "+7",
        "5.",
        ".5",
        "00012.500",
        "1e3",
        "1.5E+2",
        "25e-1",
        "0.99999999999999999999",
        "0.9999999999999999",
        "9007199254740993",
        "9007199254740991.5",
        "18446744073709551615",
        "18446744073709551616",
        "123456789012345678901234567890",
        "1e-5",
        "0.1",
        "0.3",
        "4.35",
        "1e19",
        "1e308",
        "1.7976931348623157e308",
        "1.7976931348623159e308",
        "5e-324",
        "2e-324",
        "1e-323",
        "0.000000000000000000000000000001e30",
        "1e999999999999999999999999999999999999999999",
        "1e-99999999999999999999999999999999999999999",
        "2.2250738585072011e-308",
        "8.5070591730234615865843651857942052864e37",
    ];
    for n in numbers {
        for (suffix, unit) in [("", 1u64), ("K", 1 << 10), ("m", 1 << 20), ("G", 1 << 30)] {
            let got = parse_size(&format!("{n}{suffix}")).ok();
            assert_eq!(got, reference(n, unit), "{n}{suffix}");
        }
    }
    // White space may stand between the number and the unit.
    assert_eq!(parse_size("\n3 \u{a0}K\u{2003}"), Ok(3072));
}

#[test]
fn whole_numbers_are_exact() {
    for n in [1u64, 2, 999, 123_456_789, (1 << 53) - 1] {
        assert_eq!(parse_size(&format!("{n}")), Ok(n));
    }
    assert_eq!(parse_size("8388608M"), Ok(8388608 << 20));
}
