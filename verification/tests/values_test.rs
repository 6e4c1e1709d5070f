use parse_lib::error::{FloatErrorKind, IntErrorKind};
use parse_lib::text::{split_commas, trimmed};
use parse_lib::values::{check_float, parse_bool, parse_u32};

const SAMPLES: &[&str] = &[
    "", "+", "-", "0", "00", "+7", "-7", "42", "4294967295", "4294967296", "99999999999x",
    "12a", "a12", " 1", "1 ", "1_000", "٣", "1.", ".5", ".", "-.5e+3", "1e", "1e+", "1E9",
    "e5", "1.5.2", "inf", "-Infinity", "NaN", "nAn", "infin", "+nan", "--1", "1e5e5", "0x10",
    "1,5", "25.50", "FREE", "1.0e-10", "+.e1",
];

#[test]
fn parse_u32_agrees_with_std() {
    for s in SAMPLES {
        let ours = parse_u32(s);
        let theirs = s.parse::<u32>();
        match (ours, theirs) {
            (Ok(a), Ok(b)) => assert_eq!(a, b, "{s:?}"),
            (Err(a), Err(b)) => {
                let kind = match b.kind() {
                    std::num::IntErrorKind::Empty => IntErrorKind::Empty,
                    std::num::IntErrorKind::InvalidDigit => IntErrorKind::InvalidDigit,
                    std::num::IntErrorKind::PosOverflow => IntErrorKind::PosOverflow,
                    other => panic!("unexpected kind {other:?}"),
                };
                assert_eq!(a.kind, kind, "{s:?}");
                assert_eq!(a.message(), b.to_string());
            }
            (a, b) => panic!("{s:?}: {a:?} vs {b:?}"),
        }
    }
}

#[test]
fn check_float_agrees_with_std() {
    for s in SAMPLES {
        let ours = check_float(s);
        let theirs = s.parse::<f64>();
        match (ours, theirs) {
            (Ok(()), Ok(_)) => {}
            (Err(a), Err(b)) => {
                if s.is_empty() {
                    assert_eq!(a.kind, FloatErrorKind::Empty);
                } else {
                    assert_eq!(a.kind, FloatErrorKind::Invalid, "{s:?}");
                }
                assert_eq!(a.message(), b.to_string());
            }
            (a, b) => panic!("{s:?}: {a:?} vs {b:?}"),
        }
    }
}

#[test]
fn parse_bool_agrees_with_std() {
    for s in ["true", "false", "True", "", " true", "yes"] {
        match (parse_bool(s), s.parse::<bool>()) {
            (Ok(a), Ok(b)) => assert_eq!(a, b),
            (Err(a), Err(b)) => assert_eq!(a.message(), b.to_string()),
            (a, b) => panic!("{s:?}: {a:?} vs {b:?}"),
        }
    }
}

#[test]
fn trimmed_agrees_with_std() {
    for s in ["", "  ", " a ", "\t\u{3000}x y\u{2028}\n", "\u{85}a\u{a0}", "\u{200b}b"] {
        assert_eq!(trimmed(s), s.trim());
    }
}

#[test]
fn split_commas_agrees_with_std() {
    for s in ["", ",", "a", "a,b", ",a,,b,", "1, Mouse, EU, 25.50, true"] {
        let ours = split_commas(s);
        let theirs: Vec<String> = s.split(',').map(|p| p.to_string()).collect();
        assert_eq!(ours, theirs);
    }
}

#[test]
fn whitespace_is_what_std_calls_whitespace() {
    for code in 0u32..=0x10FFFF {
        if let Some(c) = char::from_u32(code) {
            assert_eq!(parse_lib::text::is_whitespace_char(c), c.is_whitespace(), "{code:#x}");
        }
    }
}

#[test]
fn float_literal_grammar_cases() {
    for s in ["1", "1.", ".1", "1.5e10", "1.5E-10", "+inf", "-NAN", "INFINITY", "007.700"] {
        assert!(check_float(s).is_ok(), "{s:?}");
        assert!(s.parse::<f64>().is_ok(), "{s:?}");
    }
    for s in [".", "e1", "1e", "1.2.3", "in", "nana", "1 ", "- 1", "++1", "1e1.5"] {
        assert!(check_float(s).is_err(), "{s:?}");
        assert!(s.parse::<f64>().is_err(), "{s:?}");
    }
}
