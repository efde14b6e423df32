use relax_ng::grammar::{Combine, GrammarItem, NameClass, Pattern, Root};
use relax_ng::{parse, SchemaSource, SchemaSyntax};

fn source(text: &str, syntax: SchemaSyntax) -> SchemaSource {
    SchemaSource::new(text, "memory:/schema.rng", syntax)
}

#[test]
fn parses_equivalent_simple_schemas() {
    let compact = parse(&source(
        "element book { attribute id { text }, element title { text } }",
        SchemaSyntax::Compact,
    ))
    .expect("compact schema parses");
    let xml = parse(&source(
        r#"<element xmlns="http://relaxng.org/ns/structure/1.0" name="book"><attribute name="id"><text/></attribute><element name="title"><text/></element></element>"#,
        SchemaSyntax::Xml,
    ))
    .expect("XML schema parses");
    assert!(matches!(
        compact.root,
        Root::Pattern(Pattern::Element { .. })
    ));
    assert!(matches!(xml.root, Root::Pattern(Pattern::Element { .. })));
}

#[test]
fn compact_parser_supports_declarations_and_grammar_content() {
    let document = parse(&source(
        "# comment\nnamespace h = \"urn:html\"\nstart = element h:html { text }\nitem |= element item { empty }",
        SchemaSyntax::Compact,
    ))
    .expect("compact grammar parses");
    let Root::Grammar(grammar) = document.root else {
        panic!("expected grammar")
    };
    assert_eq!(grammar.items.len(), 2);
    assert!(matches!(
        grammar.items[1],
        GrammarItem::Define {
            combine: Some(Combine::Choice),
            ..
        }
    ));
}

#[test]
fn compact_parser_supports_annotations_datatypes_and_inheritance() {
    let document = parse(&source(
        r#"[ a:documentation [ "example" ] ]
           namespace h = "urn:html"
           datatypes x = "urn:types"
           include "base.rnc" inherit = h {
             start = element h:root { x:number { min = "1" } - x:number "0" }
           }"#,
        SchemaSyntax::Compact,
    ))
    .expect("compact schema parses");
    let Root::Grammar(grammar) = document.root else {
        panic!("expected grammar")
    };
    assert!(matches!(
        grammar.items[0],
        GrammarItem::Include {
            inherit_namespace: Some(_),
            ..
        }
    ));
}

#[test]
fn compact_parser_decodes_unicode_escapes() {
    parse(&source(
        r"element \x{66}oo { empty }",
        SchemaSyntax::Compact,
    ))
    .expect("Unicode escape parses");
}

#[test]
fn compact_parser_resolves_prefixed_element_and_attribute_names() {
    let document = parse(&source(
        "namespace h = \"urn:html\"\n\
         element h:foo { attribute h:bar { text } }",
        SchemaSyntax::Compact,
    ))
    .expect("compact schema parses");
    let Root::Pattern(Pattern::Element { name, body, .. }) = document.root else {
        panic!("expected an element pattern");
    };
    let NameClass::Name {
        lexical, namespace, ..
    } = &name
    else {
        panic!("expected a plain name class");
    };
    assert_eq!(lexical, "foo");
    assert_eq!(namespace.as_deref(), Some("urn:html"));
    let Pattern::Attribute {
        name: attr_name, ..
    } = &body[0]
    else {
        panic!("expected an attribute pattern");
    };
    let NameClass::Name {
        lexical, namespace, ..
    } = attr_name
    else {
        panic!("expected a plain name class");
    };
    assert_eq!(lexical, "bar");
    assert_eq!(namespace.as_deref(), Some("urn:html"));
}

#[test]
fn compact_parser_applies_default_namespace_to_unprefixed_elements_but_not_attributes() {
    let document = parse(&source(
        "default namespace = \"urn:html\"\n\
         element foo { attribute bar { text } }",
        SchemaSyntax::Compact,
    ))
    .expect("compact schema parses");
    let Root::Pattern(Pattern::Element { name, body, .. }) = document.root else {
        panic!("expected an element pattern");
    };
    let NameClass::Name { namespace, .. } = &name else {
        panic!("expected a plain name class");
    };
    assert_eq!(namespace.as_deref(), Some("urn:html"));
    let Pattern::Attribute {
        name: attr_name, ..
    } = &body[0]
    else {
        panic!("expected an attribute pattern");
    };
    let NameClass::Name { namespace, .. } = attr_name else {
        panic!("expected a plain name class");
    };
    assert_eq!(namespace.as_deref(), Some(""));
}

#[test]
fn compact_parser_rejects_an_unknown_namespace_prefix() {
    let error = parse(&source(
        "start = element unknown:foo { empty }",
        SchemaSyntax::Compact,
    ))
    .expect_err("undeclared prefix must be a parse error");
    assert!(error.to_string().contains("unknown"));
}

#[test]
fn compact_parser_allows_hyphens_inside_identifiers() {
    let document = parse(&source(
        "browsing-context = empty\nstart = browsing-context",
        SchemaSyntax::Compact,
    ))
    .expect("hyphenated identifiers parse");
    assert!(matches!(document.root, Root::Grammar(_)));
}

#[test]
fn compact_parser_supports_parenthesized_except_name_classes() {
    let document = parse(&source(
        "attribute * - ( a | b ) { text }",
        SchemaSyntax::Compact,
    ))
    .expect("parenthesized except name class parses");
    let Root::Pattern(Pattern::Attribute { name, .. }) = document.root else {
        panic!("expected an attribute pattern");
    };
    let NameClass::Any { except, .. } = &name else {
        panic!("expected an Any name class");
    };
    assert_eq!(except.len(), 1);
    assert!(matches!(except[0], NameClass::Choice(ref choices) if choices.len() == 2));
}

#[test]
fn xml_parser_ignores_foreign_annotations() {
    let document = parse(&source(
        r#"<element xmlns="http://relaxng.org/ns/structure/1.0" xmlns:a="http://relaxng.org/ns/compatibility/annotations/1.0" name="book"><a:documentation>Book</a:documentation><empty/></element>"#,
        SchemaSyntax::Xml,
    ))
    .expect("XML schema parses");
    let Root::Pattern(Pattern::Element { body, .. }) = document.root else {
        panic!("expected element")
    };
    assert_eq!(body, vec![Pattern::Empty]);
}
