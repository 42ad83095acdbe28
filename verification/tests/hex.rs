use disasm_cfg::hex::{parse_hex, push_hex};

fn written(n: u64) -> String {
    let mut text = String::new();
    push_hex(&mut text, n);
    text
}

#[test]
fn parse_hex_reads_digits_of_either_case() {
    assert_eq!(parse_hex("0"), Some(0));
    assert_eq!(parse_hex("1f"), Some(31));
    assert_eq!(parse_hex("1F"), Some(31));
    assert_eq!(parse_hex("deadBEEF"), Some(0xdead_beef));
    assert_eq!(parse_hex("0009"), Some(9));
}

#[test]
fn parse_hex_takes_a_leading_plus() {
    assert_eq!(parse_hex("+ff"), Some(255));
    assert_eq!(parse_hex("+"), None);
    assert_eq!(parse_hex("++1"), None);
    assert_eq!(parse_hex("1+"), None);
}

#[test]
fn parse_hex_rejects_what_is_no_number() {
    assert_eq!(parse_hex(""), None);
    assert_eq!(parse_hex("-1"), None);
    assert_eq!(parse_hex("0x10"), None);
    assert_eq!(parse_hex("12 "), None);
    assert_eq!(parse_hex(" 12"), None);
    assert_eq!(parse_hex("1_0"), None);
    assert_eq!(parse_hex("g"), None);
    assert_eq!(parse_hex("eax"), None);
    assert_eq!(parse_hex("\u{e9}1"), None);
}

#[test]
fn parse_hex_stops_at_sixty_four_bits() {
    assert_eq!(parse_hex("ffffffffffffffff"), Some(u64::MAX));
    assert_eq!(parse_hex("0ffffffffffffffff"), Some(u64::MAX));
    assert_eq!(parse_hex("10000000000000000"), None);
    assert_eq!(parse_hex("fffffffffffffffff"), None);
    assert_eq!(parse_hex("10000000000000000z"), None);
}

#[test]
fn parse_hex_agrees_with_std() {
    for text in ["7", "+7", "abc", "ABC", "", "+", "zz", "123456789abcdef0", "ffffffffffffffff1"] {
        assert_eq!(parse_hex(text), u64::from_str_radix(text, 16).ok());
    }
}

#[test]
fn push_hex_writes_lower_case_without_leading_zeros() {
    assert_eq!(written(0), "0");
    assert_eq!(written(9), "9");
    assert_eq!(written(10), "a");
    assert_eq!(written(16), "10");
    assert_eq!(written(0x1000), "1000");
    assert_eq!(written(0xdead_beef), "deadbeef");
    assert_eq!(written(u64::MAX), "ffffffffffffffff");
}

#[test]
fn push_hex_appends() {
    let mut text = String::from("0x");
    push_hex(&mut text, 0x2a);
    assert_eq!(text, "0x2a");
}

#[test]
fn push_hex_agrees_with_std() {
    for n in [0u64, 1, 15, 16, 255, 256, 4095, 0xabcdef, 1 << 63, u64::MAX] {
        assert_eq!(written(n), format!("{:x}", n));
    }
}

#[test]
fn parse_hex_reads_back_what_push_hex_writes() {
    for n in [0u64, 1, 15, 16, 0x1005, 0xffff_ffff, u64::MAX] {
        assert_eq!(parse_hex(&written(n)), Some(n));
    }
}
