use minimalchat::decimal::{i32_to_text, parse_i32, parse_u64, u64_to_text};

#[test]
fn u64_text_is_plain_decimal() {
    assert_eq!(u64_to_text(0), "0");
    assert_eq!(u64_to_text(5), "5");
    assert_eq!(u64_to_text(1234567890), "1234567890");
    assert_eq!(u64_to_text(u64::MAX), "18446744073709551615");
}

#[test]
fn i32_text_has_sign_for_negatives() {
    assert_eq!(i32_to_text(100), "100");
    assert_eq!(i32_to_text(-1), "-1");
    assert_eq!(i32_to_text(i32::MIN), "-2147483648");
    assert_eq!(i32_to_text(i32::MAX), "2147483647");
}

#[test]
fn parse_u64_reads_as_std_does() {
    for s in ["0", "7", "+7", "007", "18446744073709551615", "", "+", "-1", " 5", "5 ", "1a",
        "18446744073709551616", "99999999999999999999999"] {
        assert_eq!(parse_u64(s), s.parse::<u64>().ok(), "input {:?}", s);
    }
}

#[test]
fn parse_i32_reads_as_std_does() {
    for s in ["0", "-0", "+12", "-2147483648", "2147483647", "2147483648", "-2147483649", "-",
        "+", "", "--1", "+-1", "12x", "٣"] {
        assert_eq!(parse_i32(s), s.parse::<i32>().ok(), "input {:?}", s);
    }
}

#[test]
fn decimal_text_reads_back() {
    for n in [0u64, 1, 9, 10, 99, 100, 4294967296, u64::MAX] {
        assert_eq!(parse_u64(&u64_to_text(n)), Some(n));
    }
    for n in [0i32, -1, 1, i32::MIN, i32::MAX, 100, -100] {
        assert_eq!(parse_i32(&i32_to_text(n)), Some(n));
    }
}
