use eso_addons_core::text::{is_before, is_like, parse_list, parse_number, read_column};

#[test]
fn numbers() {
    assert_eq!(parse_number("42"), Some(42));
    assert_eq!(parse_number("+42"), Some(42));
    assert_eq!(parse_number("-2147483648"), Some(i32::MIN));
    assert_eq!(parse_number("2147483647"), Some(i32::MAX));
    assert_eq!(parse_number("2147483648"), None);
    assert_eq!(parse_number("-2147483649"), None);
    assert_eq!(parse_number("99999999999999999999"), None);
    assert_eq!(parse_number(""), None);
    assert_eq!(parse_number("-"), None);
    assert_eq!(parse_number("4 2"), None);
    assert_eq!(parse_number("007"), Some(7));
}

#[test]
fn numerals() {
    for one in ["1", " 1", "1 ", "\t\n1\r\u{b}\u{c}", "+1", "01", "1.0", "1.", "1e0", "1E+0", "10e-1", "0.1e1", ".1e1", "1000.000e-3"] {
        assert_eq!(read_column(one), Some(1), "{one}");
    }
    for zero in ["0", "-0", "0.0", ".0", "0e99999999", "0e-5"] {
        assert_eq!(read_column(zero), Some(0), "{zero}");
    }
    for none in ["", " ", ".", "+", "1e", "1e+", "e1", "1.5", "1x", "1 1", "- 1", "1\0", "0x1", "1e10", "1e99999999", "1e-1", "\u{a0}1"] {
        assert_eq!(read_column(none), None, "{none}");
    }
    assert_eq!(read_column("-2147483648"), Some(i32::MIN));
    assert_eq!(read_column("2147483647.00"), Some(i32::MAX));
    assert_eq!(read_column("2147483648"), None);
    assert_eq!(read_column("-21474836.48e2"), Some(i32::MIN));
    assert_eq!(read_column("00000000000000000000000000000000000007"), Some(7));
    assert_eq!(read_column("10000000000000000000000000000e-28"), Some(1));
    // digits that are not read, and a number that is too small
    assert_eq!(read_column("1.0000000000000000000000000000000009"), Some(1));
    assert_eq!(read_column("1e-400"), Some(0));
}

#[test]
fn lists() {
    assert_eq!(parse_list("1,2,,3,"), Some(vec![1, 2, 3]));
    assert_eq!(parse_list(""), Some(vec![]));
    assert_eq!(parse_list(",,"), Some(vec![]));
    assert_eq!(parse_list("1,x"), None);
    assert_eq!(parse_list("1,2\n"), None);
}

#[test]
fn patterns() {
    assert!(is_like("%map%", "Votan's Minimap"));
    assert!(is_like("%MAP%", "Votan's Minimap"));
    assert!(!is_like("%map", "mapper"));
    assert!(is_like("m_p%", "mapper"));
    assert!(is_like("%", ""));
    assert!(!is_like("_", ""));
    assert!(!is_like("%\u{c4}%", "\u{e4}"));
    // what stands behind a null character is not seen
    assert!(!is_like("%b%", "a\0b"));
    assert!(is_like("%a%", "a\0b"));
    assert!(is_like("%a\0b%", "xa"));
    assert!(!is_like("%a\0b%", "ax"));
    assert!(is_like("\u{fffe}", "\u{fffd}"));
}

#[test]
fn order() {
    assert!(is_before("", "a"));
    assert!(is_before("1", "10"));
    assert!(is_before("10", "9"));
    assert!(!is_before("a", "a"));
    assert!(!is_before("b", "a"));
}
