use ledger::parse::{parse_amount_bytes, parse_i32_bytes, trim_bytes};

fn bytes(s: &str) -> Vec<u8> {
    s.as_bytes().to_vec()
}

#[test]
fn trimming_strips_both_ends() {
    assert_eq!(trim_bytes(&bytes("  42\t")), bytes("42"));
    assert_eq!(trim_bytes(&bytes("42")), bytes("42"));
    assert_eq!(trim_bytes(&bytes("   ")), bytes(""));
    assert_eq!(trim_bytes(&bytes("")), bytes(""));
    assert_eq!(trim_bytes(&bytes(" a b ")), bytes("a b"));
}

#[test]
fn signed_integers_parse_across_the_range() {
    assert_eq!(parse_i32_bytes(&bytes("0")), Some(0));
    assert_eq!(parse_i32_bytes(&bytes("42")), Some(42));
    assert_eq!(parse_i32_bytes(&bytes("+42")), Some(42));
    assert_eq!(parse_i32_bytes(&bytes("-42")), Some(-42));
    assert_eq!(parse_i32_bytes(&bytes("2147483647")), Some(i32::MAX));
    assert_eq!(parse_i32_bytes(&bytes("-2147483648")), Some(i32::MIN));
    assert_eq!(parse_i32_bytes(&bytes("007")), Some(7));
}

#[test]
fn bad_integers_are_rejected() {
    assert_eq!(parse_i32_bytes(&bytes("")), None);
    assert_eq!(parse_i32_bytes(&bytes("-")), None);
    assert_eq!(parse_i32_bytes(&bytes("+")), None);
    assert_eq!(parse_i32_bytes(&bytes("12a")), None);
    assert_eq!(parse_i32_bytes(&bytes("1 2")), None);
    assert_eq!(parse_i32_bytes(&bytes("2147483648")), None);
    assert_eq!(parse_i32_bytes(&bytes("-2147483649")), None);
    assert_eq!(parse_i32_bytes(&bytes("99999999999999999999")), None);
}

#[test]
fn amounts_scale_to_ten_thousandths() {
    assert_eq!(parse_amount_bytes(&bytes("0")), Some(0));
    assert_eq!(parse_amount_bytes(&bytes("1")), Some(10_000));
    assert_eq!(parse_amount_bytes(&bytes("1.2")), Some(12_000));
    assert_eq!(parse_amount_bytes(&bytes("1.23")), Some(12_300));
    assert_eq!(parse_amount_bytes(&bytes("1.234")), Some(12_340));
    assert_eq!(parse_amount_bytes(&bytes("1.2345")), Some(12_345));
    assert_eq!(parse_amount_bytes(&bytes("00.0100")), Some(100));
}

#[test]
fn the_largest_representable_amount_parses_and_one_more_does_not() {
    // u64::MAX is 18446744073709551615, i.e. 1844674407370955.1615 units
    assert_eq!(
        parse_amount_bytes(&bytes("1844674407370955.1615")),
        Some(u64::MAX)
    );
    assert_eq!(parse_amount_bytes(&bytes("1844674407370955.1616")), None);
    assert_eq!(parse_amount_bytes(&bytes("1844674407370956")), None);
    assert_eq!(parse_amount_bytes(&bytes("1844674407370955")), Some(18_446_744_073_709_550_000));
}

#[test]
fn bad_amounts_are_rejected() {
    assert_eq!(parse_amount_bytes(&bytes("")), None);
    assert_eq!(parse_amount_bytes(&bytes(".")), None);
    assert_eq!(parse_amount_bytes(&bytes("1.")), None);
    assert_eq!(parse_amount_bytes(&bytes(".5")), None);
    assert_eq!(parse_amount_bytes(&bytes("1.23456")), None);
    assert_eq!(parse_amount_bytes(&bytes("-1.0")), None);
    assert_eq!(parse_amount_bytes(&bytes("+1.0")), None);
    assert_eq!(parse_amount_bytes(&bytes("1,0")), None);
}
