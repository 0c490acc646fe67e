use hotchpotch::text::{chars_of, float_literal, int_to_text, less_than, parse_i64, usize_to_text};

fn chars(s: &str) -> Vec<char> {
    s.chars().collect()
}

#[test]
fn integers_are_written_in_decimal() {
    assert_eq!(int_to_text(0), "0");
    assert_eq!(int_to_text(30), "30");
    assert_eq!(int_to_text(-42), "-42");
    assert_eq!(int_to_text(i64::MAX), "9223372036854775807");
    assert_eq!(int_to_text(i64::MIN), "-9223372036854775808");
    assert_eq!(usize_to_text(1234), "1234");
}

#[test]
fn integers_are_read_as_i64_from_str_reads_them() {
    for s in ["0", "-0", "+5", "007", "-42", "9223372036854775807", "-9223372036854775808"] {
        assert_eq!(parse_i64(&chars(s)), s.parse::<i64>().ok(), "{}", s);
    }
    for s in ["", "-", "+", "1a", " 1", "9223372036854775808", "-9223372036854775809", "1.0", "+-1"] {
        assert_eq!(parse_i64(&chars(s)), None, "{}", s);
        assert!(s.parse::<i64>().is_err(), "{}", s);
    }
}

#[test]
fn float_literals_follow_f64_from_str() {
    let accepted = [
        "1.5", "1.", ".5", "1e3", "1E3", "-1.5e-7", "+.5e+2", "inf", "-inf", "Infinity", "NaN", "nan",
        "+INF", "0", "99999999999999999999",
    ];
    for s in accepted {
        assert!(float_literal(&chars(s)), "{}", s);
        assert!(s.parse::<f64>().is_ok(), "{}", s);
    }
    let refused = ["", ".", "e5", "1e", "1e+", "1.5.2", "in", "nanx", " 1", "1_0", "--1", "0x10", "١"];
    for s in refused {
        assert!(!float_literal(&chars(s)), "{}", s);
        assert!(s.parse::<f64>().is_err(), "{}", s);
    }
}

#[test]
fn float_literals_agree_with_f64_from_str() {
    let cases = [
        "1.e5", ".e5", "+", "-", "infinit", "INFINITY", "nAn", "-NaN", "1e-0", "e", "E1", "1E+", "00.00",
        "1..2", "1e5e5", "+-1", "1 ", "\u{0}", "0.0000001", "123456789012345678901234567890", "-.5",
        "1e+5", "1e-5", "inf ", "infx", "+infinity", "Inf", "iNfInItY",
    ];
    for s in cases {
        assert_eq!(float_literal(&chars(s)), s.parse::<f64>().is_ok(), "{}", s);
    }
}

#[test]
fn chars_and_order() {
    assert_eq!(chars_of("héllo"), vec!['h', 'é', 'l', 'l', 'o']);
    assert!(less_than(&chars("a"), &chars("b")));
    assert!(less_than(&chars("ab"), &chars("abc")));
    assert!(!less_than(&chars("abc"), &chars("abc")));
    assert!(less_than(&chars("Z"), &chars("a")));
    assert!(less_than(&chars("z"), &chars("é")));
}
