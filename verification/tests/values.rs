use relax_ng::datatypes::binary64::{parse_literal, Double, Order};
use relax_ng::datatypes::decimal::Decimal;
use relax_ng::datatypes::natural::Natural;
use relax_ng::datatypes::temporal::days_since_epoch;
use relax_ng::datatypes::xsd::XsdLibrary;
use relax_ng::numbers::{parse_integer, parse_natural, to_decimal};
use relax_ng::syntax::{
    is_valid_datatype_library_uri, is_valid_ncname, resolve_relative_reference,
};
use relax_ng::text::{collapse_whitespace, split_tokens, trimmed_string};
use relax_ng::{DatatypeContext, DatatypeLibrary};

fn chars(text: &str) -> Vec<char> {
    text.chars().collect()
}

fn collapsed(text: &str) -> String {
    collapse_whitespace(&chars(text)).iter().collect()
}

fn matches(datatype: &str, params: &[(&str, &str)], value: &str) -> bool {
    XsdLibrary.matches(datatype, params, value, &DatatypeContext::empty())
}

fn equal(datatype: &str, expected: &str, actual: &str) -> bool {
    XsdLibrary.values_equal(
        datatype,
        expected,
        &DatatypeContext::empty(),
        actual,
        &DatatypeContext::empty(),
    )
}

fn double(text: &str) -> Double {
    parse_literal(&chars(text)).expect("a number")
}

fn order(a: f64, b: f64) -> Option<Order> {
    if a < b {
        Some(Order::Less)
    } else if a == b {
        Some(Order::Equal)
    } else if a > b {
        Some(Order::Greater)
    } else {
        None
    }
}

#[test]
fn collapsing_twice_changes_nothing_more() {
    for text in ["", "  ", "a", "  a\t\n b  ", "a b", "\u{a0}a \u{a0}"] {
        assert_eq!(collapsed(&collapsed(text)), collapsed(text));
        assert_eq!(split_tokens(&chars(&collapsed(text))), split_tokens(&chars(text)));
    }
    assert_eq!(collapsed("  a\t\n b  "), "a b");
    assert_eq!(collapsed("\u{a0}a"), "\u{a0}a");
    assert_eq!(trimmed_string("\u{a0} a b\n"), "a b");
}

#[test]
fn numbers_are_read_and_written() {
    assert_eq!(to_decimal(0), "0");
    assert_eq!(to_decimal(1970), "1970");
    assert_eq!(to_decimal(u64::MAX), "18446744073709551615");
    assert_eq!(parse_natural(&chars("18446744073709551615"), u64::MAX), Some(u64::MAX));
    assert_eq!(parse_natural(&chars("18446744073709551616"), u64::MAX), None);
    assert_eq!(parse_natural(&chars("+7"), u64::MAX), Some(7));
    assert_eq!(parse_natural(&chars("-7"), u64::MAX), None);
    assert_eq!(parse_integer(&chars("-7"), i64::MAX), Some(-7));
    assert_eq!(parse_integer(&chars(""), i64::MAX), None);
}

#[test]
fn naturals_of_any_size() {
    let big = Natural::from_u64(u64::MAX).times_ten_to(30).plus(&Natural::from_u64(7));
    let (quotient, rest) = big.divided_by(&Natural::from_u64(u64::MAX).times_ten_to(28));
    assert_eq!(quotient, 100);
    assert!(!rest.less(&Natural::from_u64(7)));
    assert!(!Natural::from_u64(7).less(&rest));
    assert!(Natural::from_u64(1).shifted(200).less(&Natural::from_u64(1).shifted(201)));
}

#[test]
fn days_are_those_of_the_calendar() {
    assert_eq!(days_since_epoch(1970, 1, 1), 0);
    assert_eq!(days_since_epoch(1969, 12, 31), -1);
    assert_eq!(days_since_epoch(2000, 2, 29), 11016);
    assert_eq!(days_since_epoch(2000, 3, 1), 11017);
    assert_eq!(days_since_epoch(1900, 3, 1) - days_since_epoch(1900, 2, 28), 1);
    assert_eq!(days_since_epoch(2024, 3, 1) - days_since_epoch(2024, 2, 28), 2);
    assert_eq!(days_since_epoch(2401, 1, 1) - days_since_epoch(2001, 1, 1), 146097);
    assert_eq!(days_since_epoch(-1, 1, 1), -719893);
    let lengths = [31, 28, 31, 30, 31, 30, 31, 31, 30, 31, 30, 31];
    for month in 1..12u32 {
        assert_eq!(
            days_since_epoch(2023, month + 1, 1) - days_since_epoch(2023, month, 1),
            lengths[month as usize - 1]
        );
    }
}

#[test]
fn floating_point_literals_compare_like_machine_numbers() {
    let literals = [
        "0", "-0", "1", "0.1", "0.2", "0.3", "0.30000000000000004", "1e308", "1.8e308", "1e309",
        "-1e309", "4.9e-324", "2.4e-324", "2.5e-324", "9007199254740993", "9007199254740992",
        "9007199254740994", "123456789.987654321", "1e-400", ".5", "5.", "2.2250738585072011e-308",
        "2.2250738585072014e-308", "1.7976931348623157e308", "1.7976931348623159e308", "inf",
        "-infinity", "nan", "-7e-10", "18014398509481985", "0.000000000000000000000000000001",
    ];
    for a in literals {
        for b in literals {
            let x: f64 = a.parse().expect("a number");
            let y: f64 = b.parse().expect("a number");
            assert_eq!(double(a).compare(&double(b)), order(x, y), "{a} and {b}");
        }
    }
    for text in ["", "e5", "1e", "+-1", "1..2", "0x1", "1 ", "infinit"] {
        assert_eq!(parse_literal(&chars(text)).is_some(), text.parse::<f64>().is_ok(), "{text}");
    }
}

#[test]
fn floating_point_sums_round_like_machine_numbers() {
    let literals = ["0.1", "0.2", "1e16", "1", "-1e16", "3.3", "1e308", "-4.9e-324", "86399.999"];
    for a in literals {
        for b in literals {
            let x: f64 = a.parse().expect("a number");
            let y: f64 = b.parse().expect("a number");
            let sum = format!("{:e}", x + y);
            assert!(double(a).plus(&double(b)).equals(&double(&sum)), "{a} and {b}");
        }
        let x: f64 = a.parse().expect("a number");
        let product = format!("{:e}", x * 86400.0);
        assert!(double(a).times(86400).equals(&double(&product)), "{a}");
        assert!(double(a).negate().equals(&double(&format!("{:e}", -x))));
    }
    assert!(Double::from_integer(true, 9007199254740993).equals(&double("-9007199254740992")));
}

#[test]
fn decimals_compare_by_their_value() {
    let decimal = |text: &str| Decimal::parse(&chars(text)).expect("a decimal number");
    assert_eq!(decimal("-0.0").compare(&decimal("0")), Order::Equal);
    assert_eq!(decimal("1.50").compare(&decimal("+01.5")), Order::Equal);
    assert_eq!(decimal("-2").compare(&decimal("-10")), Order::Greater);
    assert_eq!(decimal("0.09").compare(&decimal("0.1")), Order::Less);
    assert_eq!(decimal("100").compare(&decimal("99.999999999999999999999")), Order::Greater);
    assert_eq!(decimal("0012.3400").total_digits(), 4);
    assert_eq!(decimal("0012.3400").fraction_digit_count(), 2);
    assert_eq!(decimal("-12").to_i128(), Some(-12));
    assert_eq!(decimal("12.5").to_i128(), None);
    assert!(Decimal::parse(&chars(".")).is_none());
    assert!(Decimal::parse(&chars("1.2.3")).is_none());
}

#[test]
fn same_values_are_the_same_both_ways() {
    let cases = [
        ("boolean", "1", "true", "true"),
        ("decimal", "1.0", "01", "+1.00"),
        ("double", "1e2", "100", "100.0"),
        ("duration", "P1D", "PT24H", "PT1440M"),
        ("dateTime", "2024-01-01T12:00:00Z", "2024-01-01T13:00:00+01:00", "2024-01-01T07:00:00-05:00"),
        ("token", " a  b ", "a b", "a\tb"),
        ("hexBinary", "0aff", "0AFF", "0Aff"),
        ("NMTOKENS", " a  b ", "a b", "a\nb"),
    ];
    for (datatype, a, b, c) in cases {
        for (x, y) in [(a, b), (b, a), (b, c), (a, c), (a, a)] {
            assert!(equal(datatype, x, y), "{datatype} {x} {y}");
        }
    }
    assert!(!equal("double", "NaN", "NaN"));
    assert!(!equal("decimal", "1", "1.01"));
}

#[test]
fn a_value_is_on_one_side_of_a_bound() {
    let values = [
        ("integer", "5", vec!["4", "5", "6"]),
        ("decimal", "0.5", vec!["0.4999", "0.50", "0.51"]),
        ("date", "2024-02-29", vec!["2024-02-28", "2024-02-29", "2024-03-01"]),
        ("double", "1e0", vec!["0.9", "1", "INF"]),
    ];
    for (datatype, bound, literals) in values {
        for value in literals {
            assert_ne!(
                matches(datatype, &[("minInclusive", bound)], value),
                matches(datatype, &[("maxExclusive", bound)], value)
            );
            assert_ne!(
                matches(datatype, &[("minExclusive", bound)], value),
                matches(datatype, &[("maxInclusive", bound)], value)
            );
        }
    }
    assert!(matches("integer", &[("minInclusive", "5")], "5"));
    assert!(!matches("integer", &[("minExclusive", "5")], "5"));
}

#[test]
fn patterns_match_the_whole_value() {
    assert!(matches("string", &[("pattern", "[a-c]+")], "abc"));
    assert!(!matches("string", &[("pattern", "[a-c]+")], "abcd"));
    assert!(matches("string", &[("pattern", "x"), ("pattern", "[0-9]")], "7"));
    assert!(!matches("string", &[("pattern", "x|y")], "xy"));
    assert!(matches("token", &[("pattern", "a")], " a "));
    assert!(!matches("string", &[("pattern", "(")], "("));
}

#[test]
fn several_enumerated_values_are_alternatives() {
    assert!(matches("integer", &[("enumeration", "1"), ("enumeration", "2")], "02"));
    assert!(!matches("integer", &[("enumeration", "1"), ("enumeration", "2")], "3"));
    assert!(!matches(
        "integer",
        &[("enumeration", "1"), ("enumeration", "2"), ("minInclusive", "2")],
        "1"
    ));
}

#[test]
fn names_follow_unicode() {
    assert!(is_valid_ncname("a"));
    assert!(is_valid_ncname("_x-1.b"));
    assert!(is_valid_ncname("größe"));
    assert!(is_valid_ncname("名前"));
    assert!(!is_valid_ncname(""));
    assert!(!is_valid_ncname("1a"));
    assert!(!is_valid_ncname("a:b"));
    assert!(!is_valid_ncname("a b"));
    assert!(!is_valid_ncname("-a"));
    assert!(matches("Name", &[], "a:b"));
    assert!(!matches("NCName", &[], "a:b"));
    assert!(matches("NMTOKEN", &[], "1-a"));
    assert!(matches("language", &[], "de-CH-1996"));
    assert!(!matches("language", &[], "deutschland-x"));
}

#[test]
fn library_uris_are_absolute_and_without_a_fragment() {
    assert!(is_valid_datatype_library_uri(""));
    assert!(is_valid_datatype_library_uri("urn:x"));
    assert!(is_valid_datatype_library_uri("http://example.org/%20a"));
    assert!(!is_valid_datatype_library_uri("http://example.org/#a"));
    assert!(!is_valid_datatype_library_uri("relative"));
    assert!(!is_valid_datatype_library_uri("1urn:x"));
    assert!(!is_valid_datatype_library_uri("urn:%zz"));
}

#[test]
fn references_are_resolved_against_the_base() {
    let resolved = |base: &str, reference: &str| resolve_relative_reference(base, &chars(reference));
    assert_eq!(resolved("http://h/a/b", "c"), "http://h/a/c");
    assert_eq!(resolved("http://h/a/b", "urn:c"), "urn:c");
    assert_eq!(resolved("urn:other", "urn:c"), resolved("http://h/a/b", "urn:c"));
}

#[test]
fn qualified_names_are_compared_by_namespace() {
    let bound = |prefix: &str, uri: &str| {
        DatatypeContext::from_bindings(vec![(prefix.to_owned(), uri.to_owned())])
    };
    assert!(XsdLibrary.values_equal("QName", "a:x", &bound("a", "u"), "b:x", &bound("b", "u")));
    assert!(!XsdLibrary.values_equal("QName", "a:x", &bound("a", "u"), "a:x", &bound("a", "v")));
    assert!(!XsdLibrary.matches("QName", &[], "a:x", &DatatypeContext::empty()));
    assert!(XsdLibrary.matches("QName", &[], "x", &DatatypeContext::empty()));
    assert_eq!(bound("a", "u").resolve("a"), Some("u"));
    assert_eq!(bound("a", "u").resolve("b"), None);
}

#[test]
fn integers_of_any_size_are_on_the_right_side() {
    let large = format!("1{}", "0".repeat(39));
    let small = format!("-{large}");
    assert!(matches("nonNegativeInteger", &[], &large));
    assert!(matches("positiveInteger", &[], &large));
    assert!(matches("integer", &[], &small));
    assert!(matches("negativeInteger", &[], &small));
    assert!(!matches("nonNegativeInteger", &[], &small));
    assert!(!matches("nonPositiveInteger", &[], &large));
    assert!(!matches("unsignedLong", &[], &large));
    assert!(!matches("long", &[], &small));
}

#[test]
fn total_digits_are_a_maximum() {
    let most = |digits: &str, value: &str| matches("decimal", &[("totalDigits", digits)], value);
    assert!(most("3", "1.2"));
    assert!(most("3", "7"));
    assert!(most("3", "123"));
    assert!(most("3", "-12.3"));
    assert!(!most("3", "1234"));
    assert!(!most("3", "12.34"));
}
