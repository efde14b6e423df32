use relax_ng::datatypes::xsd::XsdLibrary;
use relax_ng::{DatatypeContext, DatatypeLibrary};

fn matches(datatype: &str, params: &[(&str, &str)], value: &str) -> bool {
    XsdLibrary.matches(datatype, params, value, &DatatypeContext::empty())
}

fn equal(datatype: &str, expected: &str, actual: &str) -> bool {
    XsdLibrary.values_equal(
        datatype,
        expected,
        &DatatypeContext::empty(),
        actual,
        &DatatypeContext::empty(),
    )
}

#[test]
fn boolean_lexical_forms() {
    assert!(matches("boolean", &[], "true"));
    assert!(matches("boolean", &[], "1"));
    assert!(matches("boolean", &[], "false"));
    assert!(matches("boolean", &[], "0"));
    assert!(!matches("boolean", &[], "yes"));
    assert!(equal("boolean", "true", "1"));
    assert!(equal("boolean", "false", "0"));
    assert!(!equal("boolean", "true", "false"));
}

#[test]
fn decimal_equality_ignores_lexical_spelling() {
    assert!(equal("decimal", "1.50", "01.5"));
    assert!(equal("decimal", "0", "-0.0"));
    assert!(!equal("decimal", "1.5", "1.500001"));
}

#[test]
fn decimal_min_max_inclusive_facets() {
    assert!(matches(
        "decimal",
        &[("minInclusive", "0"), ("maxInclusive", "10")],
        "10"
    ));
    assert!(!matches(
        "decimal",
        &[("minInclusive", "0"), ("maxInclusive", "10")],
        "10.01"
    ));
    assert!(!matches("decimal", &[("minExclusive", "0")], "0"));
}

#[test]
fn decimal_total_and_fraction_digits_facets() {
    assert!(matches("decimal", &[("totalDigits", "3")], "1.23"));
    assert!(!matches("decimal", &[("totalDigits", "3")], "1.234"));
    assert!(matches("decimal", &[("fractionDigits", "2")], "1.2"));
    assert!(!matches("decimal", &[("fractionDigits", "2")], "1.234"));
}

#[test]
fn integer_derivations_enforce_their_implicit_range() {
    assert!(matches("byte", &[], "127"));
    assert!(matches("byte", &[], "-128"));
    assert!(!matches("byte", &[], "128"));
    assert!(!matches("byte", &[], "-129"));
    assert!(matches("unsignedByte", &[], "255"));
    assert!(!matches("unsignedByte", &[], "-1"));
    assert!(!matches("unsignedByte", &[], "256"));
    assert!(matches("positiveInteger", &[], "1"));
    assert!(!matches("positiveInteger", &[], "0"));
    assert!(matches("nonNegativeInteger", &[], "0"));
    assert!(!matches("nonNegativeInteger", &[], "-1"));
    assert!(!matches("byte", &[], "1.5")); // integer types reject a fraction
}

#[test]
fn float_and_double_special_values() {
    assert!(matches("float", &[], "NaN"));
    assert!(matches("float", &[], "INF"));
    assert!(matches("float", &[], "-INF"));
    assert!(matches("double", &[], "3.14"));
    assert!(!matches("float", &[("minInclusive", "0")], "NaN"));
    assert!(!equal("float", "NaN", "NaN"));
}

#[test]
fn duration_lexical_shape_and_rough_ordering() {
    assert!(matches("duration", &[], "P1Y2M3DT4H5M6S"));
    assert!(matches("duration", &[], "PT1H"));
    assert!(matches("duration", &[], "-P1D"));
    assert!(!matches("duration", &[], "P"));
    assert!(!matches("duration", &[], "1Y"));
    assert!(matches("duration", &[("minInclusive", "PT1H")], "PT2H"));
    assert!(!matches("duration", &[("minInclusive", "PT3H")], "PT2H"));
}

#[test]
fn date_time_lexical_shape() {
    assert!(matches("dateTime", &[], "2024-01-02T03:04:05"));
    assert!(matches("dateTime", &[], "2024-01-02T03:04:05Z"));
    assert!(matches("dateTime", &[], "2024-01-02T03:04:05+02:00"));
    assert!(matches("dateTime", &[], "2024-01-02T24:00:00"));
    assert!(!matches("dateTime", &[], "2024-01-02"));
    assert!(!matches("dateTime", &[], "2024-13-02T00:00:00"));
}

#[test]
fn date_time_equality_normalizes_timezones_to_utc() {
    assert!(equal(
        "dateTime",
        "2024-01-02T03:00:00Z",
        "2024-01-02T05:00:00+02:00"
    ));
    assert!(!equal(
        "dateTime",
        "2024-01-02T03:00:00Z",
        "2024-01-02T03:00:00+02:00"
    ));
}

#[test]
fn date_time_ordering_facets() {
    assert!(matches(
        "dateTime",
        &[("minInclusive", "2024-01-01T00:00:00Z")],
        "2024-06-01T00:00:00Z"
    ));
    assert!(!matches(
        "dateTime",
        &[("maxExclusive", "2024-01-01T00:00:00Z")],
        "2024-01-01T00:00:00Z"
    ));
}

#[test]
fn date_and_gregorian_fragment_shapes() {
    assert!(matches("date", &[], "2024-01-02"));
    assert!(matches("date", &[], "-0044-01-02")); // a negative (BCE) year
    assert!(matches("gYearMonth", &[], "2024-01"));
    assert!(matches("gYear", &[], "2024"));
    assert!(matches("gMonthDay", &[], "--01-02"));
    assert!(matches("gDay", &[], "---02"));
    assert!(matches("gMonth", &[], "--01"));
    assert!(!matches("gMonth", &[], "--13"));
    assert!(matches("time", &[], "03:04:05"));
}

#[test]
fn binary_family() {
    assert!(matches("hexBinary", &[], "0FB7"));
    assert!(!matches("hexBinary", &[], "0FB")); // odd length
    assert!(!matches("hexBinary", &[], "0FBZ"));
    assert!(equal("hexBinary", "0fb7", "0FB7"));
    assert!(matches("base64Binary", &[], "YQ=="));
    assert!(matches("base64Binary", &[], ""));
    assert!(!matches("base64Binary", &[], "!!!!"));
}

#[test]
fn ncname_language_and_name_shapes() {
    assert!(matches("NCName", &[], "foo-bar_1"));
    assert!(!matches("NCName", &[], "1foo")); // can't start with a digit
    assert!(!matches("NCName", &[], "foo:bar")); // no colons allowed
    assert!(matches("Name", &[], "foo:bar")); // Name allows colons
    assert!(matches("language", &[], "en-US"));
    assert!(!matches("language", &[], "thisIsWayTooLongForASubtag"));
    assert!(matches("anyURI", &[], "https://example.org/x?y=1"));
}

#[test]
fn list_derived_types() {
    assert!(matches("NMTOKENS", &[], "a b c"));
    assert!(matches("NMTOKENS", &[], "a b:c d")); // NMTOKEN allows ':'
    assert!(!matches("NMTOKENS", &[], "a b c!")); // '!' is not a NameChar
    assert!(matches("IDREFS", &[], "a b c"));
    assert!(!matches("IDREFS", &[], "1a b")); // not valid NCNames
}

#[test]
fn length_and_enumeration_facets() {
    assert!(matches("string", &[("length", "3")], "abc"));
    assert!(!matches("string", &[("length", "3")], "ab"));
    assert!(matches(
        "string",
        &[("minLength", "2"), ("maxLength", "4")],
        "abc"
    ));
    assert!(!matches(
        "string",
        &[("minLength", "2"), ("maxLength", "4")],
        "abcde"
    ));
    assert!(matches(
        "string",
        &[("enumeration", "a"), ("enumeration", "b")],
        "b"
    ));
    assert!(!matches(
        "string",
        &[("enumeration", "a"), ("enumeration", "b")],
        "c"
    ));
}

#[test]
fn pattern_facet_is_fully_anchored() {
    assert!(matches("string", &[("pattern", "[a-z]+")], "abc"));
    assert!(!matches("string", &[("pattern", "[a-z]+")], "abc1"));
    assert!(!matches("string", &[("pattern", "[a-z]+")], "1abc"));
}

#[test]
fn qname_requires_a_resolvable_prefix() {
    let bound = DatatypeContext::from_bindings(vec![("h".to_owned(), "urn:h".to_owned())]);
    assert!(XsdLibrary.matches("QName", &[], "h:widget", &bound));
    assert!(!XsdLibrary.matches("QName", &[], "h:widget", &DatatypeContext::empty()));
    assert!(XsdLibrary.matches("QName", &[], "widget", &DatatypeContext::empty()));
}

#[test]
fn validate_params_rejects_unknown_types_and_inapplicable_facets() {
    assert!(XsdLibrary.validate_params("string", &[]).is_ok());
    assert!(XsdLibrary.validate_params("not-a-type", &[]).is_err());
    assert!(
        XsdLibrary
            .validate_params("string", &[("totalDigits", "3")])
            .is_err()
    );
    assert!(
        XsdLibrary
            .validate_params("decimal", &[("minInclusive", "0")])
            .is_ok()
    );
    assert!(
        XsdLibrary
            .validate_params("string", &[("pattern", "[")])
            .is_err()
    );
}
