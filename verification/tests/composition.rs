use std::collections::BTreeMap;

use relax_ng::grammar::Pattern;
use relax_ng::{
    parse, simplify, ResolveError, SchemaDocument, SchemaResolver, SchemaSource, SchemaSyntax,
};

struct Resolver(BTreeMap<String, SchemaSource>);

impl SchemaResolver for Resolver {
    fn resolve(
        &self,
        href: &str,
        _base_uri: &str,
    ) -> Result<SchemaSource, ResolveError> {
        self.0
            .get(href)
            .cloned()
            .ok_or_else(|| ResolveError::new("not found"))
    }
}

fn compact(text: &str) -> SchemaDocument {
    parse(&SchemaSource::new(
        text,
        "memory:/main.rnc",
        SchemaSyntax::Compact,
    ))
    .expect("schema parses")
}

fn xml(text: &str) -> SchemaDocument {
    parse(&SchemaSource::new(
        text,
        "memory:/main.rng",
        SchemaSyntax::Xml,
    ))
    .expect("schema parses")
}

#[test]
fn include_override_replaces_the_included_definition() {
    let resolver = Resolver(BTreeMap::from([(
        "base.rnc".into(),
        SchemaSource::new(
            "start = root\nroot = element base { empty }",
            "memory:/base.rnc",
            SchemaSyntax::Compact,
        ),
    )]));
    let schema = compact("include \"base.rnc\" { root = element override { empty } }");
    let compiled = simplify(&schema, &resolver).expect("schema simplifies");
    assert!(compiled.has_start());
    assert_eq!(compiled.definition_count(), 1);
}

#[test]
fn combine_requires_consistent_methods() {
    let resolver = Resolver(BTreeMap::new());
    let schema = compact("start = element root { empty }\npart |= empty\npart &= empty");
    assert!(simplify(&schema, &resolver).is_err());
}

#[test]
fn combine_allows_exactly_one_fragment_without_it() {
    let resolver = Resolver(BTreeMap::new());
    let schema = compact(
        "start = x\nx |= element foo1 { empty }\nx |= element foo2 { empty }\nx = element foo3 { empty }",
    );
    assert!(simplify(&schema, &resolver).is_ok());
}

#[test]
fn combine_rejects_more_than_one_fragment_without_it() {
    let resolver = Resolver(BTreeMap::new());
    let schema = compact(
        "start = x\nx = element foo1 { empty }\nx |= element foo2 { empty }\nx = element foo3 { empty }",
    );
    assert!(simplify(&schema, &resolver).is_err());
}

#[test]
fn nested_grammar_is_flattened_with_renamed_definitions() {
    let resolver = Resolver(BTreeMap::new());
    let schema = compact(
        "start = element root { grammar { start = foo\nfoo = element leaf { empty } } }",
    );
    let compiled = simplify(&schema, &resolver).expect("schema simplifies");
    assert!(compiled.has_start());
    assert_eq!(compiled.definition_count(), 1);
    let Pattern::Element { body, .. } = &compiled.start else {
        panic!("expected element pattern");
    };
    let Pattern::Ref(name) = &body[0] else {
        panic!("expected ref to renamed nested definition");
    };
    assert_ne!(name, "foo");
    let target = compiled
        .definitions
        .get(name)
        .expect("renamed definition exists");
    assert!(matches!(target, Pattern::Element { .. }));
}

#[test]
fn parent_ref_resolves_into_the_enclosing_scope() {
    let resolver = Resolver(BTreeMap::new());
    let schema = compact(
        "start = element root { grammar { start = element nested { parent shared } } }\nshared = element marker { empty }",
    );
    let compiled = simplify(&schema, &resolver).expect("schema simplifies");
    assert!(compiled.has_start());
    assert_eq!(compiled.definition_count(), 1);
    let Pattern::Element { body, .. } = &compiled.start else {
        panic!("expected element pattern");
    };
    let Pattern::Element {
        body: nested_body, ..
    } = &body[0]
    else {
        panic!("expected nested element pattern");
    };
    assert_eq!(nested_body[0], Pattern::Ref("shared".into()));
    assert!(compiled.definitions.contains_key("shared"));
}

#[test]
fn duplicate_attribute_names_in_a_group_are_rejected() {
    let resolver = Resolver(BTreeMap::new());
    let schema =
        compact("start = element root { attribute id { text }, attribute id { text } }");
    assert!(simplify(&schema, &resolver).is_err());
}

#[test]
fn duplicate_attribute_names_reached_through_refs_are_rejected() {
    let resolver = Resolver(BTreeMap::new());
    let schema = compact(
        "start = element root { a, b }\na = attribute id { text }\nb = attribute id { text }",
    );
    assert!(simplify(&schema, &resolver).is_err());
}

#[test]
fn distinct_attribute_names_in_a_group_are_allowed() {
    let resolver = Resolver(BTreeMap::new());
    let schema =
        compact("start = element root { attribute id { text }, attribute name { text } }");
    assert!(simplify(&schema, &resolver).is_ok());
}

#[test]
fn wildcard_attribute_without_one_or_more_ancestor_is_rejected() {
    let resolver = Resolver(BTreeMap::new());
    let schema = compact("start = element root { attribute * { text } }");
    assert!(simplify(&schema, &resolver).is_err());
}

#[test]
fn attribute_cannot_contain_an_element() {
    let resolver = Resolver(BTreeMap::new());
    let schema = compact("start = element root { attribute bar { element baz { empty } } }");
    assert!(simplify(&schema, &resolver).is_err());
}

#[test]
fn list_cannot_contain_an_element() {
    let resolver = Resolver(BTreeMap::new());
    let schema = compact("start = element root { list { element bar { empty } } }");
    assert!(simplify(&schema, &resolver).is_err());
}

#[test]
fn one_or_more_cannot_wrap_a_group_containing_an_attribute() {
    let resolver = Resolver(BTreeMap::new());
    let schema =
        compact("start = element root { (attribute bar { text }, attribute baz { text })+ }");
    assert!(simplify(&schema, &resolver).is_err());
}

#[test]
fn one_or_more_around_a_bare_attribute_is_allowed() {
    let resolver = Resolver(BTreeMap::new());
    let schema = compact("start = element root { (attribute bar { text })+ }");
    assert!(simplify(&schema, &resolver).is_ok());
}

#[test]
fn ref_to_an_undefined_name_is_rejected() {
    let resolver = Resolver(BTreeMap::new());
    let schema = compact("start = missing");
    assert!(simplify(&schema, &resolver).is_err());
}

#[test]
fn ref_reaching_itself_without_an_element_is_rejected() {
    let resolver = Resolver(BTreeMap::new());
    let schema = compact("start = element root { bar }\nbar = (element bar { empty } | bar)");
    assert!(simplify(&schema, &resolver).is_err());
}

#[test]
fn ref_recursing_through_an_element_is_allowed() {
    let resolver = Resolver(BTreeMap::new());
    let schema = compact("start = bar\nbar = element bar { bar? }");
    assert!(simplify(&schema, &resolver).is_ok());
}

#[test]
fn an_unreachable_self_referencing_define_is_allowed() {
    let resolver = Resolver(BTreeMap::new());
    let schema = compact("start = element root { empty }\nunused = unused");
    assert!(simplify(&schema, &resolver).is_ok());
}

#[test]
fn wildcard_attribute_with_one_or_more_ancestor_is_allowed() {
    let resolver = Resolver(BTreeMap::new());
    let schema = compact("start = element root { (attribute * { text })+ }");
    assert!(simplify(&schema, &resolver).is_ok());
}

#[test]
fn wildcard_attribute_with_zero_or_more_ancestor_is_allowed() {
    let resolver = Resolver(BTreeMap::new());
    let schema = compact("start = element root { (attribute * { text })* }");
    assert!(simplify(&schema, &resolver).is_ok());
}

#[test]
fn wildcard_attribute_wrapped_in_one_or_more_only_at_the_ref_site_is_allowed() {
    let resolver = Resolver(BTreeMap::new());
    let schema = compact(
        "start = element root { wildcard-attr* }\nwildcard-attr = attribute * { text }",
    );
    assert!(simplify(&schema, &resolver).is_ok());
}

#[test]
fn wildcard_attribute_ref_without_any_one_or_more_wrapping_is_rejected() {
    let resolver = Resolver(BTreeMap::new());
    let schema =
        compact("start = element root { wildcard-attr }\nwildcard-attr = attribute * { text }");
    assert!(simplify(&schema, &resolver).is_err());
}

#[test]
fn duplicate_text_in_interleave_is_rejected() {
    let resolver = Resolver(BTreeMap::new());
    let schema = compact("start = element root { text & text }");
    assert!(simplify(&schema, &resolver).is_err());
}

#[test]
fn duplicate_referenced_element_names_in_interleave_are_rejected() {
    let resolver = Resolver(BTreeMap::new());
    let schema = compact(
        "start = element root { a & b }\na = element item { empty }\nb = element item { empty }",
    );
    assert!(simplify(&schema, &resolver).is_err());
}

#[test]
fn direct_duplicate_element_names_in_interleave_are_also_rejected() {
    let resolver = Resolver(BTreeMap::new());
    let schema =
        compact("start = element root { element item { empty } & element item { empty } }");
    assert!(simplify(&schema, &resolver).is_err());
}

#[test]
fn start_cannot_be_a_bare_attribute() {
    let resolver = Resolver(BTreeMap::new());
    let schema = compact("start = attribute foo { text }");
    assert!(simplify(&schema, &resolver).is_err());
}

#[test]
fn a_bare_pattern_root_is_also_checked_against_start_restrictions() {
    let resolver = Resolver(BTreeMap::new());
    let schema = compact("text");
    assert!(simplify(&schema, &resolver).is_err());
}

#[test]
fn data_except_cannot_contain_text() {
    let resolver = Resolver(BTreeMap::new());
    let schema = compact("start = element root { string {} - text }");
    assert!(simplify(&schema, &resolver).is_err());
}

#[test]
fn data_except_with_a_value_is_allowed() {
    let resolver = Resolver(BTreeMap::new());
    let schema = compact("start = element root { string {} - \"foo\" }");
    assert!(simplify(&schema, &resolver).is_ok());
}

#[test]
fn unknown_type_in_the_built_in_datatype_library_is_rejected() {
    let resolver = Resolver(BTreeMap::new());
    let schema = xml(
        r#"<element xmlns="http://relaxng.org/ns/structure/1.0" name="foo"><data type="tok"/></element>"#,
    );
    assert!(simplify(&schema, &resolver).is_err());
}

#[test]
fn datatype_library_is_inherited_from_an_ancestor_element() {
    let resolver = Resolver(BTreeMap::new());
    let schema = xml(
        r#"<element xmlns="http://relaxng.org/ns/structure/1.0" name="foo" datatypeLibrary="http://www.w3.org/2001/XMLSchema-datatypes"><data type="NCName"/></element>"#,
    );
    assert!(simplify(&schema, &resolver).is_ok());
}

#[test]
fn a_string_pattern_sequenced_with_an_element_is_rejected() {
    let resolver = Resolver(BTreeMap::new());
    let schema = compact("start = element root { string, element child { empty } }");
    assert!(simplify(&schema, &resolver).is_err());
}

#[test]
fn a_string_pattern_as_an_alternative_to_an_element_is_allowed() {
    let resolver = Resolver(BTreeMap::new());
    let schema = compact("start = element root { string | element child { empty } }");
    assert!(simplify(&schema, &resolver).is_ok());
}

#[test]
fn string_sequences_inside_list_are_not_restricted_by_7_2() {
    let resolver = Resolver(BTreeMap::new());
    let schema = compact("start = element root { list { string, string } }");
    assert!(simplify(&schema, &resolver).is_ok());
}

#[test]
fn external_reference_is_resolved_through_the_caller() {
    let resolver = Resolver(BTreeMap::from([(
        "part.rnc".into(),
        SchemaSource::new(
            "element child { empty }",
            "memory:/part.rnc",
            SchemaSyntax::Compact,
        ),
    )]));
    let schema = compact("start = external \"part.rnc\"");
    assert!(
        simplify(&schema, &resolver)
            .expect("external pattern simplifies")
            .has_start()
    );
}
