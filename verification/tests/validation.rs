use relax_ng::derivative::Definitions;
use relax_ng::grammar::Pattern;
use relax_ng::validator::{
    attribute_name_known, deriv_attribute, deriv_element_event, deriv_text, nullable,
};
use relax_ng::{
    parse, simplify, validate, CompiledSchema, Content, DatatypeContext, DatatypeLibrary,
    DatatypeRegistry, Element, ExpandedName, ResolveError, SchemaResolver, SchemaSource,
    SchemaSyntax, ValidationError, ValidationErrorKind,
};

struct NoResolver;

impl SchemaResolver for NoResolver {
    fn resolve(&self, href: &str, _base_uri: &str) -> Result<SchemaSource, ResolveError> {
        Err(ResolveError::new(format!(
            "validator tests don't use includes (requested `{href}`)"
        )))
    }
}

fn schema(text: &str) -> CompiledSchema {
    let document = parse(&SchemaSource::new(
        text,
        "memory:/main.rnc",
        SchemaSyntax::Compact,
    ))
    .expect("schema parses");
    simplify(&document, &NoResolver).expect("schema simplifies")
}

fn xml_schema(text: &str) -> CompiledSchema {
    let document = parse(&SchemaSource::new(
        text,
        "memory:/main.rng",
        SchemaSyntax::Xml,
    ))
    .expect("schema parses");
    simplify(&document, &NoResolver).expect("schema simplifies")
}

fn registry() -> DatatypeRegistry {
    DatatypeRegistry::new()
}

#[derive(Clone, Debug)]
struct TestElement {
    name: ExpandedName,
    attributes: Vec<(ExpandedName, String)>,
    children: Vec<Content<TestElement>>,
    namespace_bindings: Vec<(String, String)>,
}

impl TestElement {
    fn new(local: &str) -> Self {
        Self {
            name: ExpandedName::new(None::<String>, local),
            attributes: Vec::new(),
            children: Vec::new(),
            namespace_bindings: Vec::new(),
        }
    }

    fn new_namespaced(namespace: &str, local: &str) -> Self {
        Self {
            name: ExpandedName::new(Some(namespace), local),
            attributes: Vec::new(),
            children: Vec::new(),
            namespace_bindings: Vec::new(),
        }
    }

    fn attr(mut self, local: &str, value: &str) -> Self {
        self.attributes
            .push((ExpandedName::new(None::<String>, local), value.to_owned()));
        self
    }

    fn text(mut self, text: &str) -> Self {
        self.children.push(Content::Text(text.to_owned()));
        self
    }

    fn child(mut self, element: TestElement) -> Self {
        self.children.push(Content::Element(element));
        self
    }

    fn xmlns(mut self, prefix: &str, uri: &str) -> Self {
        self.namespace_bindings
            .push((prefix.to_owned(), uri.to_owned()));
        self
    }
}

impl Element for TestElement {
    fn name(&self) -> ExpandedName {
        self.name.clone()
    }
    fn attributes(&self) -> Vec<(ExpandedName, String)> {
        self.attributes.clone()
    }
    fn children(&self) -> Vec<Content<Self>> {
        self.children.clone()
    }
    fn location(&self) -> Option<String> {
        None
    }
    fn namespace_bindings(&self) -> Vec<(String, String)> {
        self.namespace_bindings.clone()
    }
}

fn kinds(errors: &[ValidationError]) -> Vec<ValidationErrorKind> {
    errors.iter().map(|error| error.kind().clone()).collect()
}

fn name(local: &str) -> ExpandedName {
    ExpandedName::new(None::<String>, local)
}


#[test]
fn nullable_base_cases() {
    let definitions = Definitions::new();
    let registry = registry();
    assert!(nullable(&Pattern::Empty, &definitions, &registry));
    assert!(!nullable(&Pattern::NotAllowed, &definitions, &registry));
    assert!(nullable(&Pattern::Text, &definitions, &registry));
}

#[test]
fn nullable_group_requires_every_operand_nullable() {
    let definitions = Definitions::new();
    let registry = registry();
    assert!(nullable(
        &Pattern::Group(vec![Pattern::Empty, Pattern::Text]),
        &definitions,
        &registry
    ));
    assert!(!nullable(
        &Pattern::Group(vec![Pattern::Empty, Pattern::NotAllowed]),
        &definitions,
        &registry
    ));
}

#[test]
fn nullable_choice_requires_any_operand_nullable() {
    let definitions = Definitions::new();
    let registry = registry();
    assert!(nullable(
        &Pattern::Choice(vec![Pattern::NotAllowed, Pattern::Empty]),
        &definitions,
        &registry
    ));
    assert!(!nullable(
        &Pattern::Choice(vec![Pattern::NotAllowed, Pattern::NotAllowed]),
        &definitions,
        &registry
    ));
}

#[test]
fn nullable_one_or_more_delegates_to_inner() {
    let definitions = Definitions::new();
    let registry = registry();
    assert!(nullable(
        &Pattern::OneOrMore(vec![Pattern::Empty]),
        &definitions,
        &registry
    ));
    assert!(!nullable(
        &Pattern::OneOrMore(vec![Pattern::NotAllowed]),
        &definitions,
        &registry
    ));
}

#[test]
fn nullable_list_delegates_to_inner_same_as_zero_tokens_would() {
    let definitions = Definitions::new();
    let registry = registry();
    assert!(nullable(
        &Pattern::List(vec![Pattern::Empty]),
        &definitions,
        &registry
    ));
    assert!(!nullable(
        &Pattern::List(vec![Pattern::NotAllowed]),
        &definitions,
        &registry
    ));
}

#[test]
fn nullable_ref_resolves_through_definitions() {
    let definitions = {
        let mut definitions = Definitions::new();
        definitions.insert("x".to_owned(), Pattern::Empty);
        definitions
    };
    let registry = registry();
    assert!(nullable(&Pattern::Ref("x".into()), &definitions, &registry));
}


#[test]
fn deriv_element_event_matches_by_name_and_rejects_others() {
    let compiled = schema("start = element foo { empty }");
    let registry = registry();
    assert!(nullable(
        &deriv_element_event(&compiled.start, &name("foo"), &compiled.definitions),
        &compiled.definitions,
        &registry
    ));
    assert!(matches!(
        deriv_element_event(&compiled.start, &name("bar"), &compiled.definitions),
        Pattern::NotAllowed
    ));
}

#[test]
fn deriv_attribute_checks_name_and_value() {
    let compiled = schema(r#"start = element foo { attribute id { "x" } }"#);
    let registry = registry();
    let context = DatatypeContext::empty();
    let Pattern::Element { body, .. } = &compiled.start else {
        panic!("expected an element pattern");
    };
    assert!(nullable(
        &deriv_attribute(
            &body[0],
            &name("id"),
            "x",
            &compiled.definitions,
            &registry,
            &context
        ),
        &compiled.definitions,
        &registry
    ));
    assert!(matches!(
        deriv_attribute(
            &body[0],
            &name("id"),
            "y",
            &compiled.definitions,
            &registry,
            &context
        ),
        Pattern::NotAllowed
    ));
    assert!(matches!(
        deriv_attribute(
            &body[0],
            &name("other"),
            "x",
            &compiled.definitions,
            &registry,
            &context
        ),
        Pattern::NotAllowed
    ));
}

#[test]
fn deriv_text_data_accepts_any_string_value_requires_exact_match() {
    let registry = registry();
    let context = DatatypeContext::empty();
    let compiled = schema("start = element foo { token }");
    let Pattern::Element { body, .. } = &compiled.start else {
        panic!("expected an element pattern");
    };
    assert!(nullable(
        &deriv_text(
            &body[0],
            "whatever text",
            &compiled.definitions,
            &registry,
            &context
        ),
        &compiled.definitions,
        &registry
    ));

    let compiled = schema(r#"start = element foo { "exact" }"#);
    let Pattern::Element { body, .. } = &compiled.start else {
        panic!("expected an element pattern");
    };
    assert!(nullable(
        &deriv_text(
            &body[0],
            "exact",
            &compiled.definitions,
            &registry,
            &context
        ),
        &compiled.definitions,
        &registry
    ));
    assert!(matches!(
        deriv_text(
            &body[0],
            "different",
            &compiled.definitions,
            &registry,
            &context
        ),
        Pattern::NotAllowed
    ));
}

#[test]
fn deriv_text_token_equality_collapses_whitespace() {
    let registry = registry();
    let context = DatatypeContext::empty();
    let compiled = schema(r#"start = element foo { token "a b" }"#);
    let Pattern::Element { body, .. } = &compiled.start else {
        panic!("expected an element pattern");
    };
    assert!(nullable(
        &deriv_text(
            &body[0],
            "a   b",
            &compiled.definitions,
            &registry,
            &context
        ),
        &compiled.definitions,
        &registry
    ));
}


#[test]
fn group_derivative_is_sequential() {
    let registry = registry();
    let compiled = schema("start = element root { element a { empty }, element b { empty } }");
    let Pattern::Element { body, .. } = &compiled.start else {
        panic!("expected an element pattern");
    };
    let content = &body[0];
    assert!(matches!(
        deriv_element_event(content, &name("b"), &compiled.definitions),
        Pattern::NotAllowed
    ));
    let after_a = deriv_element_event(content, &name("a"), &compiled.definitions);
    let after_a_b = deriv_element_event(&after_a, &name("b"), &compiled.definitions);
    assert!(nullable(&after_a_b, &compiled.definitions, &registry));
}

#[test]
fn interleave_derivative_allows_either_order() {
    let registry = registry();
    let compiled = schema("start = element root { element a { empty } & element b { empty } }");
    let Pattern::Element { body, .. } = &compiled.start else {
        panic!("expected an element pattern");
    };
    let content = &body[0];
    let after_b = deriv_element_event(content, &name("b"), &compiled.definitions);
    assert!(!matches!(after_b, Pattern::NotAllowed));
    let after_b_a = deriv_element_event(&after_b, &name("a"), &compiled.definitions);
    assert!(nullable(&after_b_a, &compiled.definitions, &registry));
}


#[test]
fn attribute_matches_through_ref_and_interleave_xmloxide_issue_56() {
    let compiled = schema(
        "start = element foo { attrs & text }\n\
         attrs = attribute id { text }",
    );
    let document = TestElement::new("foo").attr("id", "x").text("hello");
    let errors = validate(&compiled, &registry(), &document).expect("builtin datatypes only");
    assert_eq!(kinds(&errors), Vec::<ValidationErrorKind>::new());
}

#[test]
fn attribute_name_known_resolves_ref_through_group_and_choice_too() {
    let compiled = schema(
        "start = element foo { a, b }\n\
         a = attribute x { text } | attribute y { text }\n\
         b = empty",
    );
    let Pattern::Element { body, .. } = &compiled.start else {
        panic!("expected an element pattern");
    };
    assert!(attribute_name_known(
        &body[0],
        &name("x"),
        &compiled.definitions
    ));
    assert!(attribute_name_known(
        &body[0],
        &name("y"),
        &compiled.definitions
    ));
    assert!(!attribute_name_known(
        &body[0],
        &name("z"),
        &compiled.definitions
    ));
}

#[test]
fn ref_is_transparent_for_child_elements_through_choice_and_group() {
    let compiled = schema(
        "start = element foo { greeting, farewell }\n\
         greeting = element hello { empty } | element hi { empty }\n\
         farewell = element bye { empty }",
    );
    let document = TestElement::new("foo")
        .child(TestElement::new("hi"))
        .child(TestElement::new("bye"));
    let errors = validate(&compiled, &registry(), &document).expect("builtin datatypes only");
    assert_eq!(kinds(&errors), Vec::<ValidationErrorKind>::new());
}


#[test]
fn valid_document_with_required_attribute_and_text() {
    let compiled = schema("start = element foo { attribute id { text }, text }");
    let document = TestElement::new("foo").attr("id", "1").text("hello");
    let errors = validate(&compiled, &registry(), &document).unwrap();
    assert!(errors.is_empty());
}

#[test]
fn missing_required_attribute_is_reported() {
    let compiled = schema("start = element foo { attribute id { text }, text }");
    let document = TestElement::new("foo").text("hello");
    let errors = validate(&compiled, &registry(), &document).unwrap();
    assert_eq!(kinds(&errors), vec![ValidationErrorKind::MissingContent]);
}

#[test]
fn unexpected_attribute_is_reported() {
    let compiled = schema("start = element foo { empty }");
    let document = TestElement::new("foo").attr("id", "1");
    let errors = validate(&compiled, &registry(), &document).unwrap();
    assert_eq!(
        kinds(&errors),
        vec![ValidationErrorKind::UnexpectedAttribute(name("id"))]
    );
}

#[test]
fn invalid_attribute_value_is_reported_distinctly_from_unexpected_attribute() {
    let compiled = schema(r#"start = element foo { attribute id { "x" } }"#);
    let document = TestElement::new("foo").attr("id", "y");
    let errors = validate(&compiled, &registry(), &document).unwrap();
    assert_eq!(
        kinds(&errors),
        vec![
            ValidationErrorKind::InvalidAttributeValue(name("id"), "y".to_owned()),
            ValidationErrorKind::MissingContent,
        ]
    );
}

#[test]
fn unexpected_child_element_is_reported() {
    let compiled = schema("start = element foo { element bar { empty } }");
    let document = TestElement::new("foo").child(TestElement::new("baz"));
    let errors = validate(&compiled, &registry(), &document).unwrap();
    assert_eq!(
        kinds(&errors),
        vec![
            ValidationErrorKind::UnexpectedElement(name("baz")),
            ValidationErrorKind::MissingContent,
        ]
    );
}

#[test]
fn unexpected_root_element_is_reported() {
    let compiled = schema("start = element foo { empty }");
    let document = TestElement::new("bar");
    let errors = validate(&compiled, &registry(), &document).unwrap();
    assert_eq!(
        kinds(&errors),
        vec![ValidationErrorKind::UnexpectedElement(name("bar"))]
    );
}

#[test]
fn unexpected_text_is_reported() {
    let compiled = schema("start = element foo { empty }");
    let document = TestElement::new("foo").text("surprise");
    let errors = validate(&compiled, &registry(), &document).unwrap();
    assert_eq!(kinds(&errors), vec![ValidationErrorKind::UnexpectedText]);
}

#[test]
fn one_or_more_children_are_validated_recursively_and_repeatedly() {
    let compiled = schema("start = element foo { element item { text }+ }");
    let document = TestElement::new("foo")
        .child(TestElement::new("item").text("a"))
        .child(TestElement::new("item").text("b"));
    let errors = validate(&compiled, &registry(), &document).unwrap();
    assert!(errors.is_empty());
}

#[test]
fn one_or_more_requires_at_least_one_occurrence() {
    let compiled = schema("start = element foo { element item { empty }+ }");
    let document = TestElement::new("foo");
    let errors = validate(&compiled, &registry(), &document).unwrap();
    assert_eq!(kinds(&errors), vec![ValidationErrorKind::MissingContent]);
}

#[test]
fn interleaved_text_and_element_children_validate_regardless_of_order() {
    let compiled = schema("start = element foo { mixed { element bar { empty } } }");
    let document = TestElement::new("foo")
        .text("before ")
        .child(TestElement::new("bar"))
        .text(" after");
    let errors = validate(&compiled, &registry(), &document).unwrap();
    assert!(errors.is_empty());
}

#[test]
fn list_datatype_matches_whitespace_separated_tokens() {
    let compiled = schema("start = element foo { list { token+ } }");
    let document = TestElement::new("foo").text("a b   c");
    let errors = validate(&compiled, &registry(), &document).unwrap();
    assert!(errors.is_empty());
}

#[test]
fn list_datatype_rejects_a_token_that_does_not_match() {
    let compiled = schema(r#"start = element foo { list { "a", "b" } }"#);
    let document = TestElement::new("foo").text("a c");
    let errors = validate(&compiled, &registry(), &document).unwrap();
    assert_eq!(
        kinds(&errors),
        vec![
            ValidationErrorKind::UnexpectedText,
            ValidationErrorKind::MissingContent,
        ]
    );
}

#[test]
fn unsupported_datatype_library_fails_fast_before_validating() {
    let compiled = xml_schema(
        r#"<element xmlns="http://relaxng.org/ns/structure/1.0" name="foo">
             <data type="non-empty-string" datatypeLibrary="http://whattf.org/datatype-draft"/>
           </element>"#,
    );
    let document = TestElement::new("foo").text("hello");
    let error = validate(&compiled, &registry(), &document).unwrap_err();
    assert_eq!(error.library(), "http://whattf.org/datatype-draft");
}

#[test]
fn builtin_only_registry_rejects_xsd_too() {
    let compiled = schema(
        "datatypes xsd = \"http://www.w3.org/2001/XMLSchema-datatypes\"\n\
         start = element foo { xsd:string }",
    );
    let document = TestElement::new("foo").text("hello");
    let error = validate(&compiled, &DatatypeRegistry::builtin_only(), &document).unwrap_err();
    assert_eq!(
        error.library(),
        "http://www.w3.org/2001/XMLSchema-datatypes"
    );
}


#[test]
fn xsd_string_and_integer_types_match() {
    let compiled = xml_schema(
        r#"<element xmlns="http://relaxng.org/ns/structure/1.0" name="foo" datatypeLibrary="http://www.w3.org/2001/XMLSchema-datatypes">
             <group>
               <attribute name="count"><data type="positiveInteger"/></attribute>
               <data type="string"/>
             </group>
           </element>"#,
    );
    let valid = TestElement::new("foo").attr("count", "3").text("hello");
    assert!(validate(&compiled, &registry(), &valid).unwrap().is_empty());

    let invalid = TestElement::new("foo").attr("count", "0").text("hello");
    let errors = validate(&compiled, &registry(), &invalid).unwrap();
    assert_eq!(
        kinds(&errors),
        vec![
            ValidationErrorKind::InvalidAttributeValue(name("count"), "0".to_owned()),
            ValidationErrorKind::MissingContent,
        ]
    );
}

#[test]
fn xsd_pattern_facet_is_enforced() {
    let compiled = xml_schema(
        r#"<element xmlns="http://relaxng.org/ns/structure/1.0" name="foo" datatypeLibrary="http://www.w3.org/2001/XMLSchema-datatypes">
             <data type="string"><param name="pattern">[a-z]+</param></data>
           </element>"#,
    );
    let valid = TestElement::new("foo").text("abc");
    assert!(validate(&compiled, &registry(), &valid).unwrap().is_empty());
    let invalid = TestElement::new("foo").text("ABC");
    assert_eq!(
        kinds(&validate(&compiled, &registry(), &invalid).unwrap()),
        vec![
            ValidationErrorKind::UnexpectedText,
            ValidationErrorKind::MissingContent,
        ]
    );
}

#[test]
fn xsd_decimal_value_equality_ignores_lexical_differences() {
    let compiled = xml_schema(
        r#"<element xmlns="http://relaxng.org/ns/structure/1.0" xmlns:xsd="http://www.w3.org/2001/XMLSchema-datatypes" name="foo">
             <value type="decimal" datatypeLibrary="http://www.w3.org/2001/XMLSchema-datatypes">1.50</value>
           </element>"#,
    );
    let document = TestElement::new("foo").text("01.500");
    assert!(
        validate(&compiled, &registry(), &document)
            .unwrap()
            .is_empty()
    );
}

#[test]
fn xsd_qname_resolves_prefix_via_document_namespace_bindings() {
    let compiled = xml_schema(
        r#"<element xmlns="http://relaxng.org/ns/structure/1.0" name="foo">
             <data type="QName" datatypeLibrary="http://www.w3.org/2001/XMLSchema-datatypes"/>
           </element>"#,
    );
    let document = TestElement::new("foo")
        .xmlns("h", "urn:example:h")
        .text("h:widget");
    assert!(
        validate(&compiled, &registry(), &document)
            .unwrap()
            .is_empty()
    );

    let unresolved = TestElement::new("foo").text("h:widget");
    assert_eq!(
        kinds(&validate(&compiled, &registry(), &unresolved).unwrap()),
        vec![
            ValidationErrorKind::UnexpectedText,
            ValidationErrorKind::MissingContent,
        ]
    );
}

#[test]
fn xsd_unknown_type_name_is_a_datatype_error() {
    let compiled = xml_schema(
        r#"<element xmlns="http://relaxng.org/ns/structure/1.0" name="foo" datatypeLibrary="http://www.w3.org/2001/XMLSchema-datatypes">
             <data type="not-a-real-type"/>
           </element>"#,
    );
    let document = TestElement::new("foo").text("hello");
    let error = validate(&compiled, &registry(), &document).unwrap_err();
    assert_eq!(
        error.library(),
        "http://www.w3.org/2001/XMLSchema-datatypes"
    );
}


struct DummyNonEmptyStringLibrary;

impl DatatypeLibrary for DummyNonEmptyStringLibrary {
    fn validate_params(&self, datatype: &str, params: &[(&str, &str)]) -> Result<(), String> {
        if datatype != "non-empty-string" {
            return Err(format!("unknown dummy type `{datatype}`"));
        }
        if let Some((param, _)) = params.first() {
            return Err(format!(
                "`non-empty-string` takes no parameters, found `{param}`"
            ));
        }
        Ok(())
    }

    fn matches(
        &self,
        datatype: &str,
        _params: &[(&str, &str)],
        value: &str,
        _context: &DatatypeContext,
    ) -> bool {
        datatype == "non-empty-string" && !value.is_empty()
    }

    fn values_equal(
        &self,
        datatype: &str,
        expected: &str,
        _expected_context: &DatatypeContext,
        actual: &str,
        _actual_context: &DatatypeContext,
    ) -> bool {
        datatype == "non-empty-string" && expected == actual
    }
}

#[test]
fn external_plugin_library_can_be_registered_and_used() {
    let compiled = xml_schema(
        r#"<element xmlns="http://relaxng.org/ns/structure/1.0" name="foo">
             <data type="non-empty-string" datatypeLibrary="http://whattf.org/datatype-draft"/>
           </element>"#,
    );
    let mut registry = DatatypeRegistry::new();
    registry.register(
        "http://whattf.org/datatype-draft",
        Box::new(DummyNonEmptyStringLibrary),
    );

    let valid = TestElement::new("foo").text("hello");
    assert!(validate(&compiled, &registry, &valid).unwrap().is_empty());

    let invalid = TestElement::new("foo").text("");
    assert_eq!(
        kinds(&validate(&compiled, &registry, &invalid).unwrap()),
        vec![
            ValidationErrorKind::UnexpectedText,
            ValidationErrorKind::MissingContent,
        ]
    );
}


#[test]
fn adapter_smoke_test_with_a_realistic_xhtml_shaped_tree() {
    let compiled = xml_schema(
        r#"<element xmlns="http://relaxng.org/ns/structure/1.0" xmlns:xhtml="http://www.w3.org/1999/xhtml" name="xhtml:html">
             <group>
               <element name="xhtml:head"><empty/></element>
               <element name="xhtml:body">
                 <element name="xhtml:p">
                   <group>
                     <attribute name="id"><text/></attribute>
                     <text/>
                   </group>
                 </element>
               </element>
             </group>
           </element>"#,
    );
    let document = TestElement::new_namespaced("http://www.w3.org/1999/xhtml", "html")
        .child(TestElement::new_namespaced("http://www.w3.org/1999/xhtml", "head"))
        .child(
            TestElement::new_namespaced("http://www.w3.org/1999/xhtml", "body").child(
                TestElement::new_namespaced("http://www.w3.org/1999/xhtml", "p")
                    .attr("id", "intro")
                    .text("hello"),
            ),
        );
    let errors = validate(&compiled, &registry(), &document).expect("builtin datatypes only");
    assert_eq!(kinds(&errors), Vec::<ValidationErrorKind>::new());
}
