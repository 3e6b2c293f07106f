use lpc_lpir::parser::float::parse_float;

fn chars(s: &str) -> Vec<char> {
    s.chars().collect()
}

#[test]
fn float_hex_bits() {
    let s = chars("0x3f800000 x");
    assert_eq!(parse_float(&s, 0), Some((0x3f80_0000, 11)));
}

#[test]
fn float_hex_without_digits() {
    let s = chars("0xg");
    assert_eq!(parse_float(&s, 0), None);
}

#[test]
fn float_words_any_case() {
    assert_eq!(parse_float(&chars("-Infinity"), 0), Some((0xff80_0000, 9)));
    assert_eq!(parse_float(&chars("inf "), 0), Some((0x7f80_0000, 4)));
    assert_eq!(parse_float(&chars("+NaN"), 0), Some((0x7fc0_0000, 4)));
}

#[test]
fn float_decimal_values() {
    assert_eq!(parse_float(&chars("1.0"), 0), Some((1.0f32.to_bits(), 3)));
    assert_eq!(parse_float(&chars("-2.5e1"), 0), Some(((-25.0f32).to_bits(), 6)));
    assert_eq!(parse_float(&chars("0.1"), 0), Some((0.1f32.to_bits(), 3)));
    assert_eq!(parse_float(&chars("-0.0"), 0), Some(((-0.0f32).to_bits(), 4)));
    assert_eq!(parse_float(&chars("1e"), 0), Some((1.0f32.to_bits(), 1)));
}

#[test]
fn float_decimal_without_digits() {
    assert_eq!(parse_float(&chars("."), 0), None);
    assert_eq!(parse_float(&chars("-e5"), 0), None);
}

fn std_bits(text: &str) -> u32 {
    text.parse::<f32>().unwrap().to_bits()
}

#[test]
fn float_decimal_rounds_to_nearest_even() {
    for text in [
        "16777217",
        "16777219",
        "0.3",
        "3.14159265358979",
        "2.5e-10",
        "123456789e20",
        "3.4028235e38",
        "-7.5e3",
        "0.000001",
        "1e30",
        "340282346638528859811704183484516925440",
        "99999999999999999999999999999999999999",
        "0.1234567890123456789012345678",
    ] {
        let s = chars(text);
        assert_eq!(parse_float(&s, 0), Some((std_bits(text), s.len())), "{}", text);
    }
}

#[test]
fn float_decimal_too_large_is_infinity() {
    assert_eq!(parse_float(&chars("1e39"), 0), Some((0x7f80_0000, 4)));
    assert_eq!(parse_float(&chars("-3.5e38"), 0), Some((0xff80_0000, 7)));
}
