use std::collections::BTreeMap;

use relax_ng::datatypes::xsd::XsdLibrary;
use relax_ng::{
    CompileError, DatatypeLibrary, DatatypeRegistry, ParseError, ResolveError, Schema, SchemaError,
    SchemaResolver, SchemaSource, SchemaSyntax, XSD_DATATYPE_LIBRARY,
};

struct Files(BTreeMap<&'static str, (&'static str, SchemaSyntax)>);

impl SchemaResolver for Files {
    fn resolve(&self, href: &str, _base_uri: &str) -> Result<SchemaSource, ResolveError> {
        match self.0.get(href) {
            Some((text, syntax)) => Ok(SchemaSource::new(*text, href, *syntax)),
            None => Err(ResolveError::new(format!("no such resource: {href}"))),
        }
    }
}

fn no_files() -> Files {
    Files(BTreeMap::new())
}

fn compact_file(href: &'static str, text: &'static str) -> Files {
    Files(BTreeMap::from([(href, (text, SchemaSyntax::Compact))]))
}

fn compile(text: &str, syntax: SchemaSyntax, files: &Files) -> Result<Schema, CompileError> {
    Schema::compile(&SchemaSource::new(text, "memory:/main", syntax), files)
}

fn complaint(text: &str) -> String {
    compile(text, SchemaSyntax::Compact, &no_files())
        .expect_err("schema is refused")
        .to_string()
}

fn complaint_with(text: &str, files: &Files) -> String {
    compile(text, SchemaSyntax::Compact, files)
        .expect_err("schema is refused")
        .to_string()
}

fn xml_complaint(body: &str) -> String {
    compile(body, SchemaSyntax::Xml, &no_files())
        .expect_err("schema is refused")
        .to_string()
}

fn accepted(text: &str) -> bool {
    compile(text, SchemaSyntax::Compact, &no_files()).is_ok()
}

#[test]
fn the_step_that_failed_is_told() {
    let parse = compile("element {", SchemaSyntax::Compact, &no_files()).expect_err("refused");
    assert!(matches!(parse, CompileError::Parse(_)));
    let schema = compile("start = missing", SchemaSyntax::Compact, &no_files())
        .expect_err("refused");
    assert!(matches!(schema, CompileError::Schema(_)));
    assert_eq!(
        CompileError::from(ParseError::new("p")),
        CompileError::Parse(ParseError::new("p"))
    );
    assert_eq!(
        CompileError::from(SchemaError::new("s")),
        CompileError::Schema(SchemaError::new("s"))
    );
    assert_eq!(CompileError::from(SchemaError::new("s")).to_string(), "s");
}

#[test]
fn complaints_of_the_compact_syntax() {
    assert_eq!(complaint("element a { \"x }"), "unterminated string literal");
    assert_eq!(complaint("element a { text } x"), "unexpected trailing compact syntax");
    assert_eq!(complaint("element p:a { text }"), "unknown namespace prefix `p`");
    assert_eq!(complaint("element a { external \"x\" inherit = p }"), "unknown inherited namespace prefix `p`");
    assert_eq!(complaint("[ x = \"y\" element a { text }"), "unterminated compact syntax annotation");
    assert_eq!(complaint("element a - b { text }"), "only wildcard name classes may use except");
    assert_eq!(complaint("element a ( text )"), "expected `{`");
    assert_eq!(complaint("\\x41 = text"), "expected `{` after `\\x`");
    assert_eq!(complaint("\\x{zz} = text"), "invalid Unicode escape in compact syntax");
    assert_eq!(complaint("\\x{d800} = text"), "invalid Unicode scalar value in compact syntax");
}

#[test]
fn complaints_of_the_xml_syntax() {
    assert!(xml_complaint("<element").starts_with("invalid XML schema: "));
    assert_eq!(
        xml_complaint("<element name='a'/>"),
        "schema root must use the RELAX NG namespace"
    );
    let rng = |body: &str| {
        xml_complaint(&format!(
            "<element name='a' xmlns='http://relaxng.org/ns/structure/1.0'>{body}</element>"
        ))
    };
    assert_eq!(rng(""), "`<element>` requires at least one pattern child");
    assert_eq!(rng("<strange/>"), "unsupported RELAX NG pattern `strange`");
    assert_eq!(rng("<ref/>"), "missing required `name` attribute");
    assert_eq!(rng("<ref name='1a'/>"), "`1a` is not a valid ref name");
    assert_eq!(rng("<element name='p:b'><text/></element>"), "unknown namespace prefix `p`");
    assert_eq!(rng("<empty><text/></empty>"), "`<empty>` must not have children");
    assert_eq!(rng("<group/>"), "`<group>` requires at least one child");
    assert_eq!(rng("<text name='b'/>"), "`<text>` does not allow a `name` attribute");
    assert_eq!(
        rng("<data type='string' datatypeLibrary='no scheme'/>"),
        "`datatypeLibrary` must be an absolute URI with no fragment identifier, got `no scheme`"
    );
    assert_eq!(
        rng("<data type='token'><except><value>a</value></except><except><value>b</value></except></data>"),
        "`<data>` may have at most one `except`"
    );
}

#[test]
fn complaints_about_inclusions() {
    assert_eq!(
        complaint("include \"a.rnc\"\nstart = element x { empty }"),
        "no such resource: a.rnc"
    );
    assert_eq!(
        complaint_with("include \"a.rnc\"", &compact_file("a.rnc", "element a { empty }")),
        "include must resolve to a grammar"
    );
    assert_eq!(
        complaint_with(
            "include \"a.rnc\" { start = element b { empty } }",
            &compact_file("a.rnc", "x = element a { empty }"),
        ),
        "RELAX NG §4.7: include overrides `start`, but the included grammar has none"
    );
    assert_eq!(
        complaint_with(
            "include \"a.rnc\" { y = element b { empty } }",
            &compact_file("a.rnc", "start = x\nx = element a { empty }"),
        ),
        "RELAX NG §4.7: include overrides `define name=\"y\"`, but the included grammar has no such define"
    );
    assert_eq!(
        complaint_with(
            "element r { external \"a.rnc\" }",
            &compact_file("a.rnc", "start = element a { empty }"),
        ),
        "externalRef must resolve to a pattern"
    );
    assert_eq!(
        complaint_with(
            "element r { external \"a.rnc\" }",
            &compact_file("a.rnc", "element a { external \"a.rnc\" }"),
        ),
        "externalRef cycle"
    );
    assert_eq!(
        complaint_with(
            "include \"a.rnc\"",
            &Files(BTreeMap::from([
                ("a.rnc", ("include \"b.rnc\"", SchemaSyntax::Compact)),
                ("b.rnc", ("include \"a.rnc\"", SchemaSyntax::Compact)),
            ])),
        ),
        "include cycle"
    );
    assert_eq!(
        complaint_with("include \"a.rnc\"", &compact_file("a.rnc", "start = [")),
        complaint("start = [")
    );
}

#[test]
fn complaints_about_definitions() {
    assert_eq!(complaint("x = element a { empty }"), "grammar has no start");
    assert_eq!(
        complaint("start = element a { grammar { x = empty } }"),
        "nested grammar has no start"
    );
    assert_eq!(
        complaint("start = element a { x }"),
        "RELAX NG §4.18: `ref` to undefined `x`"
    );
    assert_eq!(
        complaint("start = element a { grammar { start = parent x } }"),
        "RELAX NG §4.18: `parentRef` to undefined `x`"
    );
    assert_eq!(
        complaint("start = element a { x }\nx |= empty\nx &= text"),
        "`x` has inconsistent combine"
    );
    assert_eq!(
        complaint("start = element a { x }\nx = empty\nx = text"),
        "`x` has more than one definition without combine"
    );
    assert_eq!(
        complaint("start = element a { x }\nx = y\ny = x?"),
        "RELAX NG §4.19: `x` illegally refers to itself without an intervening element"
    );
    assert!(accepted("start = x\nx = element a { x? }"));
}

#[test]
fn complaints_about_names() {
    assert_eq!(
        complaint("element * - * { empty }"),
        "RELAX NG §4.16: an anyName's except must not contain anyName"
    );
    assert_eq!(
        complaint("namespace p = \"urn:p\"\nelement p:* - (p:* | a) { empty }"),
        "RELAX NG §4.16: an nsName's except must not contain nsName or anyName"
    );
    assert_eq!(
        complaint("element a { attribute xmlns { text } }"),
        "RELAX NG §4.16: an attribute name class must not match `xmlns` in no namespace"
    );
    assert!(complaint(
        "namespace p = \"http://www.w3.org/2000/xmlns\"\nelement a { attribute p:b { text } }"
    )
    .starts_with("RELAX NG §4.16: an attribute name class must not use the "));
}

#[test]
fn complaints_about_builtin_datatypes() {
    let rng = |body: &str| {
        xml_complaint(&format!(
            "<element name='a' xmlns='http://relaxng.org/ns/structure/1.0'>{body}</element>"
        ))
    };
    assert_eq!(
        rng("<data type='integer'/>"),
        "RELAX NG §4.16: `integer` is not a datatype of the built-in (empty) datatype library"
    );
    assert_eq!(
        rng("<data type='token'><param name='length'>1</param></data>"),
        "RELAX NG §4.16: the built-in (empty) datatype library's datatypes take no parameters"
    );
}

#[test]
fn complaints_about_where_patterns_stand() {
    assert_eq!(
        complaint("element a { attribute b { attribute c { text } } }"),
        "RELAX NG §7.1.1: an attribute pattern cannot contain an attribute"
    );
    assert_eq!(
        complaint("element a { attribute b { element c { text } } }"),
        "RELAX NG §7.1.1: an attribute pattern cannot contain an element"
    );
    assert_eq!(
        complaint("element a { (attribute b { text }, attribute c { text })+ }"),
        "RELAX NG §7.1.2: a oneOrMore pattern cannot wrap a group/interleave containing an attribute"
    );
    assert_eq!(
        complaint("element a { list { attribute b { text } } }"),
        "RELAX NG §7.1.3: a list pattern cannot contain attribute"
    );
    assert_eq!(
        complaint("element a { list { element b { text } } }"),
        "RELAX NG §7.1.3: a list pattern cannot contain element"
    );
    assert_eq!(
        complaint("element a { list { token & token } }"),
        "RELAX NG §7.1.3: a list pattern cannot contain interleave"
    );
    assert_eq!(
        complaint("element a { list { list { token } } }"),
        "RELAX NG §7.1.3: a list pattern cannot contain list"
    );
    assert_eq!(
        complaint("element a { list { text } }"),
        "RELAX NG §7.1.3: a list pattern cannot contain text"
    );
    assert_eq!(
        complaint("element a { xsd:token { } - text }"),
        "RELAX NG §7.1.4: a data/except pattern may only contain data, value or choice"
    );
    assert_eq!(
        complaint("element a { attribute * { text } }"),
        "RELAX NG §7.3: an attribute with an anyName or nsName name class must have a oneOrMore ancestor"
    );
    assert!(accepted("element a { attribute * { text }+ }"));
}

#[test]
fn complaints_about_where_patterns_stand_follow_references() {
    assert_eq!(
        complaint("start = element a { attribute b { x } }\nx = element c { text }"),
        "RELAX NG §7.1.1: an attribute pattern cannot contain an element"
    );
    assert_eq!(
        complaint("start = element a { empty }\nx = list { text }"),
        "RELAX NG §7.1.3: a list pattern cannot contain text"
    );
}

#[test]
fn complaints_about_the_start() {
    let cases = [
        ("attribute b { text }", "attribute"),
        ("token", "data"),
        ("\"v\"", "value"),
        ("text", "text"),
        ("list { token }", "list"),
        ("(element a { empty }, element b { empty })", "group"),
        ("(element a { empty } & element b { empty })", "interleave"),
        ("element a { empty }+", "oneOrMore"),
        ("empty", "empty"),
    ];
    for (pattern, kind) in cases {
        assert_eq!(
            complaint(&format!("start = {pattern}")),
            format!("RELAX NG §7.1.5: start cannot contain {kind}")
        );
        assert_eq!(
            complaint(&format!("start = x\nx = {pattern}")),
            format!("RELAX NG §7.1.5: start cannot contain {kind}")
        );
    }
    assert!(accepted("start = element a { empty } | x\nx = element b { empty } | notAllowed"));
}

#[test]
fn complaints_about_what_stands_beside_what() {
    assert_eq!(
        complaint("element a { token, element b { empty } }"),
        "RELAX NG §7.2: a pattern matching a child and a pattern matching a single string must be alternatives"
    );
    assert_eq!(
        complaint("element a { attribute b { text }, attribute b { token } }"),
        "RELAX NG §7.3: a group/interleave must not allow two attributes with the same name"
    );
    assert_eq!(
        complaint("element a { text & (text | element b { empty }) }"),
        "RELAX NG §7.4: a text pattern must not occur on both sides of an interleave"
    );
    assert_eq!(
        complaint("element a { element b { empty } & element * { empty } }"),
        "RELAX NG §7.4: an interleave must not allow overlapping element names on both sides"
    );
    assert!(accepted("element a { element b { empty }, element b { empty } }"));
    assert!(accepted("element a { token | element b { empty } }"));
    let beside = |one: &str, other: &str| {
        accepted(&format!(
            "namespace u = \"urn:u\"\nelement a {{ element {one} {{ empty }} & element {other} {{ empty }} }}"
        ))
    };
    assert!(beside("u:*", "* - u:*"));
    assert!(beside("* - u:*", "u:*"));
    assert!(beside("u:x", "* - u:x"));
    assert!(beside("u:* - u:x", "u:x"));
    assert!(beside("* - (u:* - u:x)", "u:* - u:x"));
    assert!(!beside("u:*", "* - u:x"));
    assert!(!beside("* - u:x", "* - u:y"));
    assert!(!beside("u:* - u:x", "u:* - u:y"));
    assert!(!beside("(b | u:x)", "u:*"));
}

#[test]
fn complaints_about_facets() {
    let problem = |datatype: &str, name: &str, value: &str| {
        XsdLibrary
            .validate_params(datatype, &[(name, value)])
            .expect_err("facet is refused")
    };
    assert_eq!(
        XsdLibrary.validate_params("nothing", &[]),
        Err("unknown XSD datatype `nothing`".to_owned())
    );
    assert_eq!(problem("string", "strange", "1"), "unknown facet `strange`");
    assert_eq!(problem("integer", "length", "1"), "`length` does not apply to this datatype");
    assert_eq!(
        problem("string", "length", "-1"),
        "`length` must be a non-negative integer, found `-1`"
    );
    assert_eq!(
        problem("string", "minInclusive", "a"),
        "`minInclusive` does not apply to this datatype"
    );
    assert_eq!(
        problem("integer", "minInclusive", "a"),
        "`minInclusive` value `a` is not a valid literal of this datatype"
    );
    assert_eq!(
        problem("string", "totalDigits", "1"),
        "`totalDigits` only applies to decimal-derived datatypes"
    );
    assert_eq!(
        problem("decimal", "totalDigits", "0"),
        "`totalDigits` must be a positive integer, found `0`"
    );
    assert_eq!(
        problem("string", "fractionDigits", "1"),
        "`fractionDigits` only applies to decimal-derived datatypes"
    );
    assert_eq!(
        problem("decimal", "fractionDigits", "x"),
        "`fractionDigits` must be a non-negative integer, found `x`"
    );
    assert_eq!(
        problem("string", "whiteSpace", "shrink"),
        "invalid `whiteSpace` facet value `shrink`"
    );
    assert!(problem("string", "pattern", "(").starts_with("invalid `pattern` facet: "));
    assert!(XsdLibrary.validate_params("string", &[("pattern", "(a)")]).is_ok());
    assert!(XsdLibrary.validate_params("string", &[("whiteSpace", "collapse")]).is_ok());
}

#[test]
fn datatype_errors_name_the_library() {
    let registry = DatatypeRegistry::builtin_only();
    assert!(registry.get(XSD_DATATYPE_LIBRARY).is_none());
    assert!(registry.get("").is_some());
    let unknown = relax_ng::DatatypeError::unsupported_library("urn:x");
    assert_eq!(unknown.library(), "urn:x");
    assert_eq!(unknown.to_string(), "unsupported datatype library `urn:x`");
    let problem = relax_ng::DatatypeError::type_problem("urn:x", "t", "why");
    assert_eq!(problem.library(), "urn:x");
    assert_eq!(problem.to_string(), "datatype `t` in library `urn:x`: why");
}

#[test]
fn recursion_is_refused_where_it_is_used() {
    let refused = "RELAX NG §4.19: `x` illegally refers to itself without an intervening element";
    assert_eq!(complaint("start = element a { x }\nx = attribute b { x }"), refused);
    assert_eq!(complaint("start = element a { x }\nx = list { x }"), refused);
    assert_eq!(complaint("start = element a { x }\nx = list { token, x? }"), refused);
    assert_eq!(
        complaint("start = element a { y }\ny = element b { x }\nx = text | x"),
        refused
    );
    assert!(accepted("start = element a { empty }\nx = x"));
    assert!(accepted("start = element a { empty }\nx = y\ny = x"));
    assert!(accepted("start = element a { empty }\nx = (text | x)+\ny = element b { x }"));
    assert_eq!(
        complaint("start = element a { empty }\nx = attribute b { x }"),
        "RELAX NG §7.1.1: an attribute pattern cannot contain an attribute"
    );
    assert_eq!(
        complaint("start = element a { empty }\nx = list { x }"),
        "RELAX NG §7.1.3: a list pattern cannot contain list"
    );
}

#[test]
fn a_reference_is_checked_inside_of_what_it_stands_inside_of() {
    assert_eq!(
        complaint("start = element a { x }\nx = attribute b { text }, element c { x+ }"),
        "RELAX NG §7.1.2: a oneOrMore pattern cannot wrap a group/interleave containing an attribute"
    );
    assert!(accepted("start = element a { x }\nx = attribute b { text }, element c { x? }"));
    assert!(accepted("start = element a { x }\nx = attribute b { text } | element c { x+ }"));
}

#[test]
fn data_may_be_repeated_but_not_mixed() {
    assert!(accepted("element a { token+ }"));
    assert!(accepted("element a { list { token+ } }"));
    assert_eq!(
        complaint("element a { token, element b { empty } }"),
        "RELAX NG §7.2: a pattern matching a child and a pattern matching a single string must be alternatives"
    );
    assert_eq!(
        complaint("start = element a { x, element b { empty } }\nx = empty | y\ny = token"),
        "RELAX NG §7.2: a pattern matching a child and a pattern matching a single string must be alternatives"
    );
}
