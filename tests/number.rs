use cmdparse::df;
use cmdparse::free;

#[test]
fn binary_kilo() {
    assert_eq!(df::parse_number("1K").unwrap(), 1024);
}

#[test]
fn mixed_kilo() {
    assert_eq!(free::parse_number("1K").unwrap(), 1000);
}

#[test]
fn mixed_kibi() {
    assert_eq!(free::parse_number("1Ki").unwrap(), 1024);
}

#[test]
fn percent() {
    assert_eq!(df::parse_number("42%").unwrap(), 42);
}

#[test]
fn binary_fraction() {
    assert_eq!(df::parse_number("1.5G").unwrap(), 1_610_612_736);
}

#[test]
fn invalid_text() {
    let e = df::parse_number("abc").unwrap_err();
    assert_eq!(e.token, "abc");
    assert!(free::parse_number("abc").is_err());
}

#[test]
fn plain_and_bytes() {
    assert_eq!(free::parse_number("0B").unwrap(), 0);
    assert_eq!(df::parse_number("123").unwrap(), 123);
    assert_eq!(free::parse_number("2.5").unwrap(), 2);
}

#[test]
fn largest_units() {
    assert_eq!(df::parse_number("1P").unwrap(), 1u64 << 50);
    assert_eq!(free::parse_number("1P").unwrap(), 1_000_000_000_000_000);
    assert_eq!(free::parse_number("1Pi").unwrap(), 1u64 << 50);
    assert_eq!(free::parse_number("1.5Ti").unwrap(), 1_649_267_441_664);
}

#[test]
fn free_keeps_percent() {
    assert!(free::parse_number("42%").is_err());
}

#[test]
fn saturates_and_clamps() {
    assert_eq!(df::parse_number("99999999999999999999P").unwrap(), u64::MAX);
    assert_eq!(df::parse_number("-5").unwrap(), 0);
    assert_eq!(df::parse_number("+7").unwrap(), 7);
}

#[test]
fn fraction_forms() {
    assert_eq!(df::parse_number(".5K").unwrap(), 512);
    assert_eq!(df::parse_number("5.").unwrap(), 5);
    assert!(df::parse_number(".").is_err());
    assert!(df::parse_number("").is_err());
    assert!(df::parse_number("1.2.3").is_err());
}

#[test]
fn repeated_suffix_rejected() {
    assert!(df::parse_number("2KK").is_err());
    assert!(df::parse_number("42%%").is_err());
    assert!(free::parse_number("1KiKi").is_err());
}

#[test]
fn exponent_notation() {
    assert_eq!(df::parse_number("1e3").unwrap(), 1000);
    assert_eq!(free::parse_number("1e3").unwrap(), 1000);
    assert_eq!(df::parse_number("1E3").unwrap(), 1000);
    assert_eq!(df::parse_number("1.5e3K").unwrap(), 1_536_000);
    assert_eq!(df::parse_number("2.5E-1K").unwrap(), 256);
    assert_eq!(df::parse_number("1e+2M").unwrap(), 100 * 1024 * 1024);
    assert_eq!(free::parse_number("1.e1Ki").unwrap(), 10 * 1024);
    assert_eq!(df::parse_number("1e19").unwrap(), 10_000_000_000_000_000_000);
}

#[test]
fn exponent_extremes() {
    assert_eq!(df::parse_number("1e400").unwrap(), u64::MAX);
    assert_eq!(df::parse_number("1e-20").unwrap(), 0);
    assert_eq!(df::parse_number("0e99999999999999999999999").unwrap(), 0);
    assert_eq!(df::parse_number("1e99999999999999999999999").unwrap(), u64::MAX);
    assert_eq!(df::parse_number("1e-99999999999999999999999").unwrap(), 0);
    assert_eq!(df::parse_number("-1e5").unwrap(), 0);
}

#[test]
fn exponent_malformed() {
    assert!(df::parse_number("1e").is_err());
    assert!(df::parse_number("e3").is_err());
    assert!(df::parse_number("1e+").is_err());
    assert!(df::parse_number("1e3.5").is_err());
}

#[test]
fn infinity_and_nan() {
    assert_eq!(df::parse_number("inf").unwrap(), u64::MAX);
    assert_eq!(free::parse_number("Infinity").unwrap(), u64::MAX);
    assert_eq!(df::parse_number("+INF").unwrap(), u64::MAX);
    assert_eq!(df::parse_number("-inf").unwrap(), 0);
    assert_eq!(df::parse_number("NaN").unwrap(), 0);
    assert_eq!(free::parse_number("-nan").unwrap(), 0);
    assert_eq!(df::parse_number("nan%").unwrap(), 0);
    assert!(df::parse_number("infin").is_err());
}
