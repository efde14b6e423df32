use std::cell::RefCell;
use std::collections::BTreeMap;

use relax_ng::algebra::{choice, group, interleave};
use relax_ng::derivative::{
    attribute_name_known_within, deriv_element_within, find_element_contents_within,
    structurally_nullable, Definitions, MAX_DEPTH,
};
use relax_ng::grammar::{Context, NameClass, Pattern, Root};
use relax_ng::simplify::SchemaError;
use relax_ng::string_map::StringMap;
use relax_ng::syntax::parse_with_inherited_ns;
use relax_ng::validator::nullable;
use relax_ng::{
    validate, Content, DatatypeContext, DatatypeLibrary, DatatypeRegistry, Element, ExpandedName,
    ResolveError, Schema, SchemaResolver, SchemaSource, SchemaSyntax, ValidationError,
    ValidationErrorKind,
};

/// Serves schemas from memory, and remembers what it was asked for.
struct Files {
    texts: BTreeMap<&'static str, &'static str>,
    asked: RefCell<Vec<(String, String)>>,
}

impl Files {
    fn new(texts: &[(&'static str, &'static str)]) -> Self {
        Files { texts: texts.iter().copied().collect(), asked: RefCell::new(Vec::new()) }
    }
}

impl SchemaResolver for Files {
    fn resolve(&self, href: &str, base_uri: &str) -> Result<SchemaSource, ResolveError> {
        self.asked.borrow_mut().push((href.to_owned(), base_uri.to_owned()));
        match self.texts.get(href) {
            Some(text) => Ok(SchemaSource::new(*text, href, SchemaSyntax::Compact)),
            None => Err(ResolveError::new(format!("no such resource: {href}"))),
        }
    }
}

#[derive(Clone, Debug)]
struct Doc {
    name: ExpandedName,
    attributes: Vec<(ExpandedName, String)>,
    children: Vec<Content<Doc>>,
    location: Option<String>,
}

impl Doc {
    fn new(local: &str) -> Self {
        Doc {
            name: ExpandedName::new(None::<String>, local),
            attributes: Vec::new(),
            children: Vec::new(),
            location: None,
        }
    }

    fn attr(mut self, name: &str, value: &str) -> Self {
        self.attributes
            .push((ExpandedName::new(None::<String>, name), value.to_owned()));
        self
    }

    fn text(mut self, text: &str) -> Self {
        self.children.push(Content::Text(text.to_owned()));
        self
    }

    fn child(mut self, child: Doc) -> Self {
        self.children.push(Content::Element(child));
        self
    }

    fn at(mut self, location: &str) -> Self {
        self.location = Some(location.to_owned());
        self
    }
}

impl Element for Doc {
    fn name(&self) -> ExpandedName {
        self.name.clone()
    }
    fn attributes(&self) -> Vec<(ExpandedName, String)> {
        self.attributes.clone()
    }
    fn children(&self) -> Vec<Content<Self>> {
        self.children.clone()
    }
    fn location(&self) -> Option<String> {
        self.location.clone()
    }
    fn namespace_bindings(&self) -> Vec<(String, String)> {
        Vec::new()
    }
}

fn compile(text: &str) -> Schema {
    compile_with(text, &Files::new(&[]))
}

fn compile_with(text: &str, files: &Files) -> Schema {
    Schema::compile(
        &SchemaSource::new(text, "memory:/main.rnc", SchemaSyntax::Compact),
        files,
    )
    .expect("schema compiles")
}

fn problems(schema: &Schema, root: &Doc) -> Vec<ValidationError> {
    schema
        .validate(&DatatypeRegistry::new(), root)
        .expect("datatypes are known")
}

fn valid(schema: &Schema, root: &Doc) -> bool {
    problems(schema, root).is_empty()
}

fn name(local: &str) -> ExpandedName {
    ExpandedName::new(None::<String>, local)
}

fn element(local: &str) -> Pattern {
    Pattern::Element {
        name: NameClass::Name {
            lexical: local.to_owned(),
            namespace: None,
            context: context(),
        },
        body: vec![Pattern::Empty],
        context: context(),
    }
}

fn context() -> Context {
    Context {
        ns: None,
        datatype_library: None,
        base_uri: String::new(),
        namespaces: StringMap::new(),
        default_namespace: None,
    }
}

#[test]
fn a_note_with_an_author_and_a_body() {
    let schema = compile("element note { attribute author { text }, element body { text } }");
    let good = Doc::new("note")
        .attr("author", "jane")
        .child(Doc::new("body").text("Remember the milk."));
    assert!(valid(&schema, &good));
    let bad = Doc::new("note").child(Doc::new("body").text("Missing the author attribute."));
    let errors = problems(&schema, &bad);
    assert_eq!(errors.len(), 1);
    assert_eq!(errors[0].kind(), &ValidationErrorKind::MissingContent);
    assert_eq!(errors[0].to_string(), "missing required content");
}

#[test]
fn a_self_contained_schema_asks_for_nothing() {
    let files = Files::new(&[]);
    compile_with("element greeting { attribute lang { text }, text }", &files);
    compile_with("start = x\nx = element a { grammar { start = parent x | y\ny = empty } }", &files);
    assert!(files.asked.borrow().is_empty());
}

#[test]
fn each_reference_to_another_schema_is_asked_for_with_its_base() {
    let files = Files::new(&[
        ("part.rnc", "body = element body { external \"leaf.rnc\" }"),
        ("leaf.rnc", "element leaf { empty }"),
    ]);
    let schema = compile_with("include \"part.rnc\"\nstart = element a { body }", &files);
    assert_eq!(
        *files.asked.borrow(),
        vec![
            ("part.rnc".to_owned(), "memory:/main.rnc".to_owned()),
            ("leaf.rnc".to_owned(), "part.rnc".to_owned()),
        ]
    );
    assert!(valid(
        &schema,
        &Doc::new("a").child(Doc::new("body").child(Doc::new("leaf")))
    ));
}

#[test]
fn an_inclusion_replaces_what_it_defines_itself() {
    let files = Files::new(&[(
        "base.rnc",
        "start = element r { a, b }\na = element old { empty }\nb = element kept { empty }",
    )]);
    let schema = compile_with("include \"base.rnc\" { a = element new { empty } }", &files);
    let with = |first: &str| {
        Doc::new("r").child(Doc::new(first)).child(Doc::new("kept"))
    };
    assert!(valid(&schema, &with("new")));
    assert!(!valid(&schema, &with("old")));
}

#[test]
fn a_child_sequence_is_accepted_where_the_content_model_accepts_it() {
    let schema = compile(
        "start = element r { x, (a | b)*, c? }\nx = a & b\na = element a { empty }\nb = element b { empty }\nc = element c { empty }",
    );
    let run = |names: &str| {
        let mut root = Doc::new("r");
        for c in names.chars() {
            root = root.child(Doc::new(&c.to_string()));
        }
        valid(&schema, &root)
    };
    for names in ["ab", "ba", "abc", "baabbc", "abab"] {
        assert!(run(names), "{names}");
    }
    for names in ["", "a", "aa", "c", "abca", "acb", "abd"] {
        assert!(!run(names), "{names}");
    }
}

#[test]
fn a_child_that_can_be_next_leaves_something() {
    let definitions = Definitions::new();
    let model = group(vec![
        choice(vec![element("a"), Pattern::Empty]),
        interleave(vec![element("b"), element("c")]),
    ]);
    for (local, expected) in [("a", true), ("b", true), ("c", true), ("d", false)] {
        let left = deriv_element_within(&model, &name(local), &definitions, MAX_DEPTH);
        let found = find_element_contents_within(&model, &name(local), &definitions, MAX_DEPTH);
        assert_eq!(found.is_some(), expected, "{local}");
        assert_eq!(left != Pattern::NotAllowed, expected, "{local}");
    }
    let after_b = deriv_element_within(&model, &name("b"), &definitions, MAX_DEPTH);
    assert!(!structurally_nullable(&after_b, &definitions, MAX_DEPTH));
    let after_c = deriv_element_within(&after_b, &name("c"), &definitions, MAX_DEPTH);
    assert!(structurally_nullable(&after_c, &definitions, MAX_DEPTH));
    assert!(!attribute_name_known_within(&model, &name("a"), &definitions, MAX_DEPTH));
}

#[test]
fn attributes_are_taken_in_any_order_and_behind_references() {
    let schema = compile(
        "start = element r { text, more, attribute a { text } }\nmore = attribute b { \"1\" | \"2\" } & c\nc = attribute c { text }?",
    );
    let orders = [["a", "b", "c"], ["c", "b", "a"], ["b", "a", "c"], ["c", "a", "b"]];
    for order in orders {
        let mut good = Doc::new("r");
        let mut bad = Doc::new("r");
        for attribute in order {
            good = good.attr(attribute, "1");
            bad = bad.attr(attribute, "3");
        }
        assert!(valid(&schema, &good.text("t")));
        let errors = problems(&schema, &bad);
        assert_eq!(errors.len(), 2);
        assert_eq!(
            errors[0].kind(),
            &ValidationErrorKind::InvalidAttributeValue(name("b"), "3".to_owned())
        );
        assert_eq!(errors[1].kind(), &ValidationErrorKind::MissingContent);
    }
    let unknown = problems(&schema, &Doc::new("r").attr("a", "").attr("b", "1").attr("d", "x"));
    assert_eq!(unknown[0].kind(), &ValidationErrorKind::UnexpectedAttribute(name("d")));
    assert_eq!(unknown.len(), 1);
}

#[test]
fn every_kind_of_problem_is_told_with_its_path_and_location() {
    let schema = compile("element r { element a { attribute x { \"1\" } }, element b { empty } }");
    let root = Doc::new("r")
        .at("line 1")
        .child(Doc::new("a").attr("x", "2").attr("y", "").at("line 2"))
        .child(Doc::new("c").at("line 3"))
        .child(Doc::new("b").text("t").at("line 4"));
    let told: Vec<String> = problems(&schema, &root)
        .iter()
        .map(|error| {
            let path: Vec<String> = error.path().iter().map(|name| name.to_string()).collect();
            format!("{} in {}", error.to_string(), path.join("/"))
        })
        .collect();
    assert_eq!(
        told,
        vec![
            "invalid value `2` for attribute `x` at line 2 in r/a",
            "unexpected attribute `y` at line 2 in r/a",
            "missing required content at line 2 in r/a",
            "unexpected element `c` at line 3 in r/c",
            "unexpected text at line 4 in r/b",
        ]
    );
    let wrong = problems(&schema, &Doc::new("q").at("top"));
    assert_eq!(wrong.len(), 1);
    assert_eq!(wrong[0].kind(), &ValidationErrorKind::UnexpectedElement(name("q")));
    assert_eq!(wrong[0].path(), [name("q")]);
    assert_eq!(wrong[0].location(), Some("top"));
    assert_eq!(
        ExpandedName::new(Some("urn:x"), "a").to_string(),
        "{urn:x}a"
    );
}

#[test]
fn an_unregistered_library_is_told_before_any_problem() {
    let schema = compile("datatypes d = \"urn:d\"\nelement r { d:t }");
    let error = schema
        .validate(&DatatypeRegistry::new(), &Doc::new("q"))
        .expect_err("the library is not registered");
    assert_eq!(error.library(), "urn:d");
    assert_eq!(error.to_string(), "unsupported datatype library `urn:d`");
    let facet = compile("element r { xsd:integer { length = \"1\" } }");
    let error = validate(facet.compiled(), &DatatypeRegistry::new(), &Doc::new("r"))
        .expect_err("the facet does not apply");
    assert_eq!(
        error.to_string(),
        "datatype `integer` in library `http://www.w3.org/2001/XMLSchema-datatypes`: `length` does not apply to this datatype"
    );
}

/// A library whose one datatype has the even numbers of vowels.
struct Vowels;

impl DatatypeLibrary for Vowels {
    fn validate_params(&self, datatype: &str, params: &[(&str, &str)]) -> Result<(), String> {
        if datatype == "even" && params.is_empty() {
            Ok(())
        } else {
            Err(format!("no such datatype: {datatype}"))
        }
    }
    fn matches(
        &self,
        _datatype: &str,
        _params: &[(&str, &str)],
        value: &str,
        _context: &DatatypeContext,
    ) -> bool {
        value.chars().filter(|c| "aeiou".contains(*c)).count() % 2 == 0
    }
    fn values_equal(
        &self,
        _datatype: &str,
        expected: &str,
        _expected_context: &DatatypeContext,
        actual: &str,
        _actual_context: &DatatypeContext,
    ) -> bool {
        expected.len() == actual.len()
    }
}

#[test]
fn a_registered_library_decides() {
    let schema = compile("datatypes d = \"urn:d\"\nelement r { d:even | d:even \"four\" }");
    let mut registry = DatatypeRegistry::new();
    registry.register("urn:d", Box::new(Vowels));
    let check = |text: &str| {
        schema
            .validate(&registry, &Doc::new("r").text(text))
            .expect("the library is registered")
            .is_empty()
    };
    assert!(check("oak tree"));
    assert!(!check("ash"));
    assert!(check("elm!"));
}

#[test]
fn operands_that_add_nothing_are_left_out() {
    assert_eq!(group(vec![Pattern::Empty, Pattern::Text]), Pattern::Text);
    assert_eq!(group(vec![Pattern::Text, Pattern::NotAllowed]), Pattern::NotAllowed);
    assert_eq!(choice(vec![Pattern::NotAllowed, Pattern::Text]), Pattern::Text);
    assert_eq!(choice(vec![Pattern::NotAllowed]), Pattern::NotAllowed);
    assert_eq!(interleave(vec![Pattern::Empty, Pattern::Empty]), Pattern::Empty);
    assert_eq!(
        group(vec![Pattern::Text, Pattern::Text]),
        Pattern::Group(vec![Pattern::Text, Pattern::Text])
    );
}

#[test]
fn composed_patterns_have_no_shorthand_left() {
    let schema = compile("element r { mixed { element a { empty }* }, attribute b { text }? }");
    let Pattern::Element { body, .. } = &schema.compiled().start else {
        panic!("expected an element")
    };
    let Pattern::Group(parts) = &body[0] else {
        panic!("expected a group")
    };
    assert!(matches!(&parts[0], Pattern::Interleave(both) if both.len() == 2));
    assert!(matches!(&parts[1], Pattern::Choice(both) if both[1] == Pattern::Empty));
    assert!(schema.compiled().has_start());
    assert_eq!(schema.compiled().definition_count(), 0);
}

#[test]
fn nested_grammars_keep_their_names_apart() {
    let schema = compile(
        "start = element r { x, grammar { start = x, parent x\nx = element inner { empty } } }\nx = element outer { empty }",
    );
    assert_eq!(schema.compiled().definition_count(), 2);
    let root = |names: [&str; 3]| {
        names.iter().fold(Doc::new("r"), |root, name| root.child(Doc::new(name)))
    };
    assert!(valid(&schema, &root(["outer", "inner", "outer"])));
    assert!(!valid(&schema, &root(["outer", "outer", "inner"])));
}

#[test]
fn a_schema_error_says_what_it_was_made_with() {
    assert_eq!(SchemaError::new("why").to_string(), "why");
    assert_eq!(ResolveError::new("why").to_string(), "why");
}

#[test]
fn text_matters_to_elements_alone_but_not_to_mixed_content() {
    let alone = compile("element r { element a { empty }, element b { empty }? }");
    let mixed = compile("element r { mixed { element a { empty }, element b { empty }? } }");
    let with = |text: &str| {
        Doc::new("r").text(text).child(Doc::new("a")).text(text)
    };
    assert!(valid(&alone, &with(" \n")));
    assert!(!valid(&alone, &with("x")));
    assert!(valid(&mixed, &with(" \n")));
    assert!(valid(&mixed, &with("x")));
    for schema in [&alone, &mixed] {
        assert!(!valid(schema, &Doc::new("r")));
        assert!(!valid(schema, &Doc::new("r").child(Doc::new("b"))));
        assert!(!valid(schema, &Doc::new("r").attr("x", "").child(Doc::new("a"))));
        assert!(!valid(schema, &Doc::new("r").child(Doc::new("a").text("x"))));
        assert!(valid(schema, &Doc::new("r").child(Doc::new("a")).child(Doc::new("b"))));
    }
}

#[test]
fn the_same_answers_give_the_same_schema() {
    let files = Files::new(&[
        ("a.rnc", "x = element a { y }\ny = external \"b.rnc\""),
        ("b.rnc", "element b { grammar { start = z\nz = text } }"),
    ]);
    let text = "include \"a.rnc\"\nstart = x";
    let first = compile_with(text, &files);
    let second = compile_with(text, &files);
    assert_eq!(format!("{:?}", first.compiled()), format!("{:?}", second.compiled()));
    let asked = files.asked.borrow();
    assert_eq!(asked[..2], asked[2..]);
}

#[test]
fn what_is_not_reached_is_composed_all_the_same() {
    let schema = compile("start = element a { empty }\nx = element b { x? }");
    assert_eq!(schema.compiled().definition_count(), 1);
    assert!(schema.compiled().definitions.contains_key("x"));
}

#[test]
fn an_element_without_children_is_valid_where_its_attributes_are_allowed() {
    let schema = compile(
        "start = element r { common, (attribute a { xsd:integer } | attribute b { text }), attribute * - (a | b | id) { \"1\" }* }\ncommon = attribute id { name } & empty\nname = xsd:NCName",
    );
    let check = |attributes: &[(&str, &str)]| {
        let forth = attributes.iter().fold(Doc::new("r"), |doc, (n, v)| doc.attr(n, v));
        let back = attributes.iter().rev().fold(Doc::new("r"), |doc, (n, v)| doc.attr(n, v));
        assert_eq!(valid(&schema, &forth), valid(&schema, &back));
        valid(&schema, &forth)
    };
    assert!(check(&[("id", "x"), ("a", "7")]));
    assert!(check(&[("id", "x"), ("b", "anything"), ("c", "1"), ("d", "1")]));
    assert!(!check(&[("id", "x")]));
    assert!(!check(&[("a", "7")]));
    assert!(!check(&[("id", "x"), ("a", "seven")]));
    assert!(!check(&[("id", "1x"), ("a", "7")]));
    assert!(!check(&[("id", "x"), ("a", "7"), ("b", "too much")]));
    assert!(!check(&[("id", "x"), ("a", "7"), ("c", "2")]));
}

#[test]
fn what_follows_a_child_goes_with_what_the_child_was() {
    let schema = compile(
        "start = element foo { (element a { attribute x { text } }, element b { empty }) | (element a { empty }, element c { empty }) }",
    );
    let with = |attribute: bool, last: &str| {
        let first = Doc::new("a");
        let first = if attribute { first.attr("x", "1") } else { first };
        Doc::new("foo").child(first).child(Doc::new(last))
    };
    assert!(valid(&schema, &with(true, "b")));
    assert!(valid(&schema, &with(false, "c")));
    assert!(!valid(&schema, &with(true, "c")));
    assert!(!valid(&schema, &with(false, "b")));
    let errors = problems(&schema, &with(true, "c"));
    assert_eq!(errors.len(), 2);
    assert_eq!(errors[0].kind(), &ValidationErrorKind::UnexpectedElement(name("c")));
    assert_eq!(errors[0].path(), [name("foo"), name("c")]);
    assert_eq!(errors[1].kind(), &ValidationErrorKind::MissingContent);
    assert_eq!(errors[1].path(), [name("foo")]);
}

#[test]
fn what_is_inside_a_child_decides_between_alternatives() {
    let schema = compile(
        "start = element r { (element a { element x { empty } }, element b { empty }) | (element a { element y { empty }, element z { empty } }, element c { empty }) }",
    );
    let with = |inner: &[&str], last: &str| {
        let a = inner.iter().fold(Doc::new("a"), |doc, local| doc.child(Doc::new(local)));
        Doc::new("r").child(a).child(Doc::new(last))
    };
    assert!(valid(&schema, &with(&["x"], "b")));
    assert!(valid(&schema, &with(&["y", "z"], "c")));
    assert!(!valid(&schema, &with(&["x"], "c")));
    assert!(!valid(&schema, &with(&["y", "z"], "b")));
    assert!(!valid(&schema, &with(&["y"], "c")));
}

#[test]
fn two_roots_of_one_name_are_alternatives() {
    let schema = compile(
        "start = element r { attribute a { text } } | element r { element b { empty } }",
    );
    assert!(valid(&schema, &Doc::new("r").attr("a", "")));
    assert!(valid(&schema, &Doc::new("r").child(Doc::new("b"))));
    assert!(!valid(&schema, &Doc::new("r").attr("a", "").child(Doc::new("b"))));
    assert!(!valid(&schema, &Doc::new("r")));
    assert!(!valid(&schema, &Doc::new("s")));
}

#[test]
fn a_position_that_wants_an_element_or_an_attribute_wants_one() {
    let schema = compile(
        "element r { (element x { empty } | attribute a { text }), element y { empty } }",
    );
    let y = Doc::new("y");
    assert!(valid(&schema, &Doc::new("r").child(Doc::new("x")).child(y.clone())));
    assert!(valid(&schema, &Doc::new("r").attr("a", "").child(y.clone())));
    assert!(!valid(&schema, &Doc::new("r").child(y.clone())));
    assert!(!valid(&schema, &Doc::new("r").attr("a", "").child(Doc::new("x")).child(y)));
}

#[test]
fn attributes_and_children_go_together() {
    let schema = compile(
        "element r { (attribute a { text }, element x { empty }+) | (attribute b { text }?, element y { empty }, text) }",
    );
    let check = |attributes: &[&str], children: &[&str]| {
        let doc = attributes.iter().fold(Doc::new("r"), |doc, local| doc.attr(local, "v"));
        let doc = children.iter().fold(doc, |doc, local| {
            if *local == "#" {
                doc.text("t")
            } else {
                doc.child(Doc::new(local))
            }
        });
        valid(&schema, &doc)
    };
    assert!(check(&["a"], &["x", "x"]));
    assert!(check(&["b"], &["y", "#"]));
    assert!(check(&[], &["y"]));
    assert!(!check(&[], &["x"]));
    assert!(!check(&["b"], &["x"]));
    assert!(!check(&["a"], &["y"]));
    assert!(!check(&["a"], &["x", "#"]));
    assert!(!check(&[], &["#", "y"]));
}

#[test]
fn the_order_of_attributes_matters_nowhere_in_a_document() {
    let schema = compile(
        "element r { attribute m { \"1\" }?, attribute n { text }, element a { attribute x { text }, attribute y { \"2\" }, text }* }",
    );
    let check = |value: &str| {
        let forth = Doc::new("r").attr("m", "1").attr("n", "").child(
            Doc::new("a").attr("x", "").attr("y", value).text("t"),
        );
        let back = Doc::new("r").attr("n", "").attr("m", "1").child(
            Doc::new("a").attr("y", value).attr("x", "").text("t"),
        );
        assert_eq!(valid(&schema, &forth), valid(&schema, &back));
        valid(&schema, &forth)
    };
    assert!(check("2"));
    assert!(!check("3"));
}

#[test]
fn attributes_of_one_repetition_are_taken_whatever_stands_between() {
    let schema = compile("element r { (attribute * { \"1\" } | element x { empty })+ }");
    let x = Doc::new("x");
    assert!(valid(&schema, &Doc::new("r").attr("a", "1").child(x.clone()).child(x.clone())));
    assert!(valid(&schema, &Doc::new("r").attr("b", "1").attr("a", "1")));
    assert!(valid(&schema, &Doc::new("r").child(x.clone())));
    assert!(!valid(&schema, &Doc::new("r")));
    assert!(!valid(&schema, &Doc::new("r").attr("a", "2").child(x)));
}

#[test]
fn an_unexpected_element_is_at_the_end_of_its_path() {
    let schema = compile("element foo { element a { empty } }");
    let root = problems(&schema, &Doc::new("bar"));
    assert_eq!(root.len(), 1);
    assert_eq!(root[0].kind(), &ValidationErrorKind::UnexpectedElement(name("bar")));
    assert_eq!(root[0].path(), [name("bar")]);
    let inner = problems(&schema, &Doc::new("foo").child(Doc::new("b")));
    assert_eq!(inner[0].kind(), &ValidationErrorKind::UnexpectedElement(name("b")));
    assert_eq!(inner[0].path(), [name("foo"), name("b")]);
    assert_eq!(inner[1].kind(), &ValidationErrorKind::MissingContent);
    assert_eq!(inner[1].path(), [name("foo")]);
}

#[test]
fn an_inclusion_replaces_the_start() {
    let files = Files::new(&[(
        "base.rnc",
        "start = element base { empty }",
    )]);
    let schema = compile_with(
        "include \"base.rnc\" { start = element override { empty } }",
        &files,
    );
    assert!(valid(&schema, &Doc::new("override")));
    assert!(!valid(&schema, &Doc::new("base")));
    assert_eq!(schema.compiled().definition_count(), 0);
}

#[test]
fn a_reference_to_the_parent_follows_it_out_of_two_grammars() {
    let schema = compile(
        "start = element root { grammar { start = element a { grammar { start = inner\ninner = element b { parent shared } } }\nshared = element c { empty } } }",
    );
    assert_eq!(schema.compiled().definition_count(), 2);
    let good = Doc::new("root").child(
        Doc::new("a").child(Doc::new("b").child(Doc::new("c"))),
    );
    assert!(valid(&schema, &good));
    assert!(!valid(&schema, &Doc::new("root").child(Doc::new("a").child(Doc::new("b")))));
}

#[test]
fn a_schema_that_is_referred_to_has_the_namespace_of_the_reference() {
    let files = Files::new(&[
        ("child.rnc", "element foo { empty }"),
        ("named.rnc", "default namespace = \"urn:own\"\nelement foo { empty }"),
    ]);
    let root = |namespace: &str, schema: &Schema| {
        let mut doc = Doc::new("foo");
        doc.name = ExpandedName::new(Some(namespace), "foo");
        valid(schema, &doc)
    };
    let taken = compile_with("default namespace = \"urn:x\"\nexternal \"child.rnc\"", &files);
    assert!(root("urn:x", &taken));
    assert!(!valid(&taken, &Doc::new("foo")));
    let prefixed = compile_with(
        "namespace p = \"urn:p\"\nexternal \"child.rnc\" inherit = p",
        &files,
    );
    assert!(root("urn:p", &prefixed));
    let own = compile_with("default namespace = \"urn:x\"\nexternal \"named.rnc\"", &files);
    assert!(root("urn:own", &own));
    assert!(!root("urn:x", &own));
}

/// A library whose one datatype has no values.
struct Nothing;

impl DatatypeLibrary for Nothing {
    fn validate_params(&self, _datatype: &str, _params: &[(&str, &str)]) -> Result<(), String> {
        Ok(())
    }
    fn matches(
        &self,
        _datatype: &str,
        _params: &[(&str, &str)],
        _value: &str,
        _context: &DatatypeContext,
    ) -> bool {
        false
    }
    fn values_equal(
        &self,
        _datatype: &str,
        _expected: &str,
        _expected_context: &DatatypeContext,
        _actual: &str,
        _actual_context: &DatatypeContext,
    ) -> bool {
        false
    }
}

#[test]
fn a_library_that_is_registered_replaces_the_one_before() {
    let schema = compile("datatypes d = \"urn:d\"\nelement r { d:even | xsd:integer }");
    let check = |registry: &DatatypeRegistry, text: &str| {
        schema
            .validate(registry, &Doc::new("r").text(text))
            .expect("the libraries are registered")
            .is_empty()
    };
    let mut registry = DatatypeRegistry::new();
    registry.register("urn:d", Box::new(Vowels));
    assert!(check(&registry, "oak tree"));
    assert!(check(&registry, "7"));
    registry.register("urn:d", Box::new(Nothing));
    assert!(!check(&registry, "oak tree"));
    assert!(check(&registry, "7"));
    assert!(registry.get("urn:e").is_none());
    assert!(registry.get("").is_some());
}

#[test]
fn a_text_type_stands_for_the_empty_string_but_a_list_needs_a_token() {
    let definitions = Definitions::new();
    let registry = DatatypeRegistry::new();
    let data = |datatype: &str| Pattern::Data {
        datatype: datatype.to_owned(),
        datatype_library: None,
        params: Vec::new(),
        except: Vec::new(),
        context: context(),
    };
    for datatype in ["string", "token"] {
        assert!(nullable(&data(datatype), &definitions, &registry));
        assert!(!nullable(&Pattern::List(vec![data(datatype)]), &definitions, &registry));
    }
    assert!(nullable(&Pattern::List(vec![Pattern::Empty]), &definitions, &registry));
    assert!(!nullable(&Pattern::List(vec![Pattern::NotAllowed]), &definitions, &registry));
    assert!(!nullable(&element("a"), &definitions, &registry));
}

#[test]
fn an_inherited_namespace_is_the_default_namespace() {
    let namespace_of = |text: &str, inherited: Option<&str>| {
        let source = SchemaSource::new(text, "memory:/a.rnc", SchemaSyntax::Compact);
        let document = parse_with_inherited_ns(&source, inherited.map(|uri| uri.to_owned()))
            .expect("schema parses");
        match document.root {
            Root::Pattern(Pattern::Element { name: NameClass::Name { namespace, .. }, .. }) => {
                namespace
            }
            _ => panic!("expected an element"),
        }
    };
    let plain = "element foo { empty }";
    assert_eq!(namespace_of(plain, Some("urn:x")), Some("urn:x".to_owned()));
    assert_eq!(namespace_of(plain, None), None);
    let own = "default namespace = \"urn:own\"\nelement foo { empty }";
    assert_eq!(namespace_of(own, Some("urn:x")), Some("urn:own".to_owned()));
}

#[test]
fn valid_documents_are_looked_through_once() {
    let schema = compile("start = x\nx = element a { x?, x?, (x | y)? }\ny = element b { empty }");
    let nested = |levels: usize, last: Doc| {
        (0..levels).fold(last, |doc, _| Doc::new("a").child(doc))
    };
    assert!(valid(&schema, &nested(60, Doc::new("a"))));
    assert!(valid(&schema, &nested(60, Doc::new("b"))));
    let errors = problems(&schema, &nested(4, Doc::new("c")));
    assert_eq!(errors.len(), 1);
    assert_eq!(errors[0].kind(), &ValidationErrorKind::UnexpectedElement(name("c")));
    assert_eq!(errors[0].path().len(), 5);
}

#[test]
fn contents_of_an_accepted_schema_describe_elements() {
    let schema = compile(
        "start = element note { head, body }
         head = attribute lang { token }, attribute kind { \"a\" | \"b\" }?
         body = element line { words }+
         words = list { token, token+ } | element blank { empty }",
    );
    let line = |text: &str| Doc::new("line").text(text);
    let note = || Doc::new("note").attr("lang", "en");
    assert!(valid(&schema, &note().child(line("one two"))));
    assert!(valid(
        &schema,
        &Doc::new("note")
            .attr("kind", "b")
            .attr("lang", "en")
            .child(line("one two three"))
            .child(Doc::new("line").child(Doc::new("blank")))
    ));
    assert!(!valid(&schema, &note()));
    assert!(!valid(&schema, &note().child(line("one"))));
    assert!(!valid(&schema, &note().attr("kind", "c").child(line("one two"))));
    assert!(!valid(&schema, &Doc::new("note").child(line("one two"))));
    assert!(!valid(&schema, &note().child(line("one two").child(Doc::new("blank")))));
}

#[test]
fn repeated_data_is_taken_between_elements() {
    let schema = compile("element list { (\"a\" | element b { empty })+ }");
    let list = || Doc::new("list");
    let b = || Doc::new("b");
    assert!(valid(&schema, &list().text("a")));
    assert!(valid(&schema, &list().child(b())));
    assert!(valid(&schema, &list().text("a").child(b()).text("a")));
    assert!(!valid(&schema, &list()));
    assert!(!valid(&schema, &list().text("c").child(b())));
    assert!(!valid(&schema, &list().text("a").child(b()).text("c")));
}
