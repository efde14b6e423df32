//! Validation of a document, given through the [`Element`] trait, against a compiled
//! schema.
//!
//! Validating an element comes down to this: derive its content pattern through every
//! attribute, in the order of their names, and then through every child, in document
//! order, and check that the result is nullable. A child is taken as what an element
//! pattern describes only where its own content is valid there, so that what follows a
//! child goes with what the child was taken as.
//!
//! Every `data` and `value` of the schema is checked against the registry once, before
//! the document is looked at, so that an unregistered library or an invalid parameter
//! fails fast with a [`DatatypeError`].
use vstd::prelude::*;

use crate::algebra::{choice, is_not_allowed};
use crate::attribute_order::{in_order, sort_attributes};
use crate::datatypes::registry::{
    bindings_of, pairs, type_problem_of, unsupported_library_problem, Bindings, DatatypeContext,
    DatatypeError, DatatypeProblem, DatatypeRegistry, RegistryModel,
};
use crate::derivative::{
    attribute_derivative, attribute_name_known_within, child_content, child_derivative,
    child_derivatives, deriv_attribute_within, deriv_element_within, deriv_positions,
    deriv_text_within, expects_text, find_element_contents_within, is_nullable, knows_attribute,
    named, nullable_within, one_or_more_deriv, param_pairs, param_texts, text_derivative,
    value_type, value_type_name, wants_text, Child, Container, Definitions, Defs, MAX_DEPTH,
};
use crate::grammar::{copy_pattern, patterns_of, NameModel, Pattern, PatternModel};
use crate::name_class::{holds_name, name_class_matches};
use crate::simplify::{CompiledSchema, SchemaModel};
use crate::string_map::lookup;
use crate::text::{
    blank, concat3, concat4, concat5, copy_opt, copy_or_empty, holds, is_blank, opt_text, or_empty,
    same, texts, IntoText, Text,
};

verus! {

// ---------------------------------------------------------------------
// Names and documents
// ---------------------------------------------------------------------

/// An expanded (namespace-resolved) name: local name plus an optional namespace URI.
/// `None` means "no namespace".
#[derive(Clone, Debug, PartialEq, Eq, PartialOrd, Ord, Hash)]
pub struct ExpandedName {
    /// The namespace URI, or `None` for "no namespace".
    pub namespace: Option<String>,
    /// The local (unprefixed) name.
    pub local: String,
}

/// The model of an [`ExpandedName`].
#[verifier::ext_equal]
pub struct NameView {
    pub namespace: Option<Text>,
    pub local: Text,
}

impl View for ExpandedName {
    type V = NameView;

    open spec fn view(&self) -> NameView {
        NameView { namespace: opt_text(self.namespace), local: self.local@ }
    }
}

/// The text of a name: the local name, with the namespace before it in braces where there
/// is one.
pub open spec fn name_text(name: NameView) -> Text {
    match name.namespace {
        Some(namespace) => "{"@ + namespace + "}"@ + name.local,
        None => name.local,
    }
}

impl ExpandedName {
    /// Builds an expanded name from a namespace (`None` for "no namespace") and a local
    /// name.
    pub fn new<N: IntoText, L: IntoText>(namespace: Option<N>, local: L) -> (r: Self)
        ensures
            r@ == (NameView {
                namespace: match namespace {
                    Some(n) => Some(n.chars_of()),
                    None => None,
                },
                local: local.chars_of(),
            }),
    {
        let namespace = match namespace {
            Some(n) => Some(n.into_text()),
            None => None,
        };
        ExpandedName { namespace, local: local.into_text() }
    }

    /// The name's text, with the namespace in braces.
    pub fn to_string(&self) -> (r: String)
        ensures
            r@ == name_text(self@),
    {
        match &self.namespace {
            Some(namespace) => concat4("{", namespace.as_str(), "}", self.local.as_str()),
            None => self.local.clone(),
        }
    }

    /// A copy of the name.
    pub fn copy(&self) -> (r: Self)
        ensures
            r@ == self@,
    {
        ExpandedName { namespace: copy_opt(&self.namespace), local: self.local.clone() }
    }
}

/// The models of a sequence of names.
pub open spec fn names_view(s: Seq<ExpandedName>) -> Seq<NameView> {
    Seq::new(s.len(), |i: int| s[i]@)
}

/// A copy of a sequence of names.
fn copy_path(path: &Vec<ExpandedName>) -> (r: Vec<ExpandedName>)
    ensures
        names_view(r@) == names_view(path@),
{
    let mut out: Vec<ExpandedName> = Vec::new();
    let mut i: usize = 0;
    while i < path.len()
        invariant
            i <= path.len(),
            out.len() == i,
            forall|j: int| 0 <= j < i ==> (#[trigger] out@[j])@ == path@[j]@,
        decreases path.len() - i,
    {
        out.push(path[i].copy());
        i += 1;
    }
    assert(names_view(out@) =~= names_view(path@));
    out
}

/// One child of an element, in document order. Comments and processing instructions are
/// not part of this model.
#[derive(Clone, Debug, PartialEq, Eq)]
pub enum Content<E> {
    /// A child element.
    Element(E),
    /// A single, non-empty, already-merged run of text.
    Text(String),
}

/// The model of an element and everything inside it.
#[verifier::ext_equal]
pub struct ElementModel {
    pub name: NameView,
    pub attributes: Seq<(NameView, Text)>,
    pub children: Seq<ContentModel>,
    pub location: Option<Text>,
    pub bindings: Bindings,
}

/// The model of a child of an element.
#[verifier::ext_equal]
pub enum ContentModel {
    Element(ElementModel),
    Text(Text),
}

/// The models of attributes.
pub open spec fn attributes_of(s: Seq<(ExpandedName, String)>) -> Seq<(NameView, Text)> {
    Seq::new(s.len(), |i: int| (s[i].0@, s[i].1@))
}

/// The model of a child.
pub open spec fn content_of<E: Element>(c: Content<E>) -> ContentModel {
    match c {
        Content::Element(element) => ContentModel::Element(element.model()),
        Content::Text(text) => ContentModel::Text(text@),
    }
}

/// The models of children.
pub open spec fn contents_of<E: Element>(s: Seq<Content<E>>) -> Seq<ContentModel> {
    Seq::new(s.len(), |i: int| content_of(s[i]))
}

/// The minimal view of a document element that validation needs. Implement this over
/// whatever tree type the caller already has.
pub trait Element: Sized {
    /// The element and everything inside it.
    open spec fn model(&self) -> ElementModel {
        arbitrary()
    }

    /// This element's expanded name.
    fn name(&self) -> (r: ExpandedName)
        ensures
            r@ == self.model().name,
    ;

    /// This element's attributes, in any order. Namespace declarations are not attributes
    /// for this purpose.
    fn attributes(&self) -> (r: Vec<(ExpandedName, String)>)
        ensures
            attributes_of(r@) == self.model().attributes,
    ;

    /// This element's children, in document order.
    fn children(&self) -> (r: Vec<Content<Self>>)
        ensures
            r@.len() == self.model().children.len(),
            forall|i: int|
                0 <= i < r@.len() ==> self.model().children[i] == (match #[trigger] r@[i] {
                    Content::Element(element) => ContentModel::Element(element.model()),
                    Content::Text(text) => ContentModel::Text(text@),
                }),
    ;

    /// An optional human-readable location, given with any [`ValidationError`] raised
    /// against this element.
    fn location(&self) -> (r: Option<String>)
        ensures
            opt_text(r) == self.model().location,
    ;

    /// The namespace prefix bindings in scope at this element (`("", uri)` for the default
    /// namespace), those inherited from ancestors among them. They are needed only to
    /// resolve `QName`- and `NOTATION`-typed values.
    fn namespace_bindings(&self) -> (r: Vec<(String, String)>)
        ensures
            bindings_of(r@) == self.model().bindings,
    ;
}

// ---------------------------------------------------------------------
// Problems
// ---------------------------------------------------------------------

/// A single validation problem, with the path of element names from the document root
/// down to (and including) the element that it occurred on, and a location if
/// [`Element::location`] gave one.
#[derive(Clone, Debug, PartialEq, Eq)]
pub struct ValidationError {
    kind: ValidationErrorKind,
    path: Vec<ExpandedName>,
    location: Option<String>,
}

/// What kind of problem a [`ValidationError`] describes.
#[derive(Clone, Debug, PartialEq, Eq)]
pub enum ValidationErrorKind {
    /// An element with this name is not allowed at this position.
    UnexpectedElement(ExpandedName),
    /// A text child is not allowed at this position.
    UnexpectedText,
    /// This attribute name is not allowed on this element at all.
    UnexpectedAttribute(ExpandedName),
    /// This attribute is allowed on this element, but its value does not match what the
    /// schema requires.
    InvalidAttributeValue(ExpandedName, String),
    /// The element ended while the schema still required more content (a missing child
    /// element, missing text, or a missing attribute).
    MissingContent,
}

/// The model of a [`ValidationErrorKind`].
#[verifier::ext_equal]
pub enum KindModel {
    UnexpectedElement(NameView),
    UnexpectedText,
    UnexpectedAttribute(NameView),
    InvalidAttributeValue(NameView, Text),
    MissingContent,
}

/// The model of a [`ValidationError`].
#[verifier::ext_equal]
pub struct ErrorModel {
    pub kind: KindModel,
    pub path: Seq<NameView>,
    pub location: Option<Text>,
}

impl View for ValidationErrorKind {
    type V = KindModel;

    open spec fn view(&self) -> KindModel {
        match self {
            ValidationErrorKind::UnexpectedElement(name) => KindModel::UnexpectedElement(name@),
            ValidationErrorKind::UnexpectedText => KindModel::UnexpectedText,
            ValidationErrorKind::UnexpectedAttribute(name) => KindModel::UnexpectedAttribute(name@),
            ValidationErrorKind::InvalidAttributeValue(name, value) =>
                KindModel::InvalidAttributeValue(name@, value@),
            ValidationErrorKind::MissingContent => KindModel::MissingContent,
        }
    }
}

impl View for ValidationError {
    type V = ErrorModel;

    closed spec fn view(&self) -> ErrorModel {
        ErrorModel {
            kind: self.kind@,
            path: names_view(self.path@),
            location: opt_text(self.location),
        }
    }
}

/// The text of a kind of problem.
pub open spec fn kind_text(kind: KindModel) -> Text {
    match kind {
        KindModel::UnexpectedElement(name) => "unexpected element `"@ + name_text(name) + "`"@,
        KindModel::UnexpectedText => "unexpected text"@,
        KindModel::UnexpectedAttribute(name) => "unexpected attribute `"@ + name_text(name) + "`"@,
        KindModel::InvalidAttributeValue(name, value) => "invalid value `"@ + value
            + "` for attribute `"@ + name_text(name) + "`"@,
        KindModel::MissingContent => "missing required content"@,
    }
}

/// The text of a problem: that of its kind, and the location where there is one.
pub open spec fn error_text(error: ErrorModel) -> Text {
    match error.location {
        Some(location) => kind_text(error.kind) + " at "@ + location,
        None => kind_text(error.kind),
    }
}

impl ValidationErrorKind {
    /// The text of this kind of problem.
    pub fn to_string(&self) -> (r: String)
        ensures
            r@ == kind_text(self@),
    {
        match self {
            ValidationErrorKind::UnexpectedElement(name) => concat3(
                "unexpected element `",
                name.to_string().as_str(),
                "`",
            ),
            ValidationErrorKind::UnexpectedText => "unexpected text".to_owned(),
            ValidationErrorKind::UnexpectedAttribute(name) => concat3(
                "unexpected attribute `",
                name.to_string().as_str(),
                "`",
            ),
            ValidationErrorKind::InvalidAttributeValue(name, value) => concat5(
                "invalid value `",
                value.as_str(),
                "` for attribute `",
                name.to_string().as_str(),
                "`",
            ),
            ValidationErrorKind::MissingContent => "missing required content".to_owned(),
        }
    }
}

impl ValidationError {
    /// What kind of problem this is.
    pub fn kind(&self) -> (r: &ValidationErrorKind)
        ensures
            r@ == self@.kind,
    {
        &self.kind
    }

    /// The element names from the document root down to (and including) the element that
    /// this problem occurred on.
    pub fn path(&self) -> (r: &[ExpandedName])
        ensures
            names_view(r@) == self@.path,
    {
        self.path.as_slice()
    }

    /// The location that [`Element::location`] gave for the affected element, if any.
    pub fn location(&self) -> (r: Option<&str>)
        ensures
            match r {
                Some(location) => self@.location == Some(location@),
                None => self@.location is None,
            },
    {
        match &self.location {
            Some(location) => Some(location.as_str()),
            None => None,
        }
    }

    /// The problem's text.
    pub fn to_string(&self) -> (r: String)
        ensures
            r@ == error_text(self@),
    {
        let kind = self.kind.to_string();
        match &self.location {
            Some(location) => concat3(kind.as_str(), " at ", location.as_str()),
            None => kind,
        }
    }
}

/// The models of problems.
pub open spec fn errors_of(s: Seq<ValidationError>) -> Seq<ErrorModel> {
    Seq::new(s.len(), |i: int| s[i]@)
}

/// Appends a problem.
fn report(
    errors: &mut Vec<ValidationError>,
    kind: ValidationErrorKind,
    path: &Vec<ExpandedName>,
    location: Option<String>,
)
    ensures
        errors_of(final(errors)@) == errors_of(old(errors)@).push(
            (ErrorModel { kind: kind@, path: names_view(path@), location: opt_text(location) }),
        ),
{
    let ghost before = errors_of(errors@);
    let error = ValidationError { kind, path: copy_path(path), location };
    errors.push(error);
    assert(errors_of(errors@) =~= before.push(error@));
}

// ---------------------------------------------------------------------
// What is supported
// ---------------------------------------------------------------------

/// What is wrong with a `data` or `value` pattern's datatype: its library is not
/// registered, or objects to the type or the parameters.
pub open spec fn datatype_problem(
    registry: RegistryModel,
    library: Text,
    datatype: Text,
    params: Seq<(Text, Text)>,
) -> Option<DatatypeProblem> {
    match lookup(registry, library) {
        None => Some(unsupported_library_problem(library)),
        Some(l) => match (l.problem)(datatype, params) {
            Some(reason) => Some(type_problem_of(library, datatype, reason)),
            None => None,
        },
    }
}

/// Checks the datatypes of a pattern, following each `ref` the first time that it is met.
/// The result is the names met so far, or the first problem.
pub open spec fn support_walk(
    p: PatternModel,
    defs: Defs,
    registry: RegistryModel,
    seen: Seq<Text>,
    depth: nat,
) -> Result<Seq<Text>, DatatypeProblem>
    decreases depth, p, 0nat,
{
    match p {
        PatternModel::Data { datatype, datatype_library, params, except, context } =>
            match datatype_problem(
                registry,
                or_empty(datatype_library),
                datatype,
                param_texts(params),
            ) {
                Some(problem) => Err(problem),
                None => support_walk_all(except, defs, registry, seen, depth, except.len()),
            },
        PatternModel::Value { value, datatype, datatype_library, namespace, context } =>
            match datatype_problem(
                registry,
                or_empty(datatype_library),
                value_type(datatype),
                Seq::empty(),
            ) {
                Some(problem) => Err(problem),
                None => Ok(seen),
            },
        PatternModel::Element { name, body, context } => support_walk_all(
            body,
            defs,
            registry,
            seen,
            depth,
            body.len(),
        ),
        PatternModel::Attribute { name, body, context } => support_walk_all(
            body,
            defs,
            registry,
            seen,
            depth,
            body.len(),
        ),
        PatternModel::Group(values) => support_walk_all(
            values,
            defs,
            registry,
            seen,
            depth,
            values.len(),
        ),
        PatternModel::Interleave(values) => support_walk_all(
            values,
            defs,
            registry,
            seen,
            depth,
            values.len(),
        ),
        PatternModel::Choice(values) => support_walk_all(
            values,
            defs,
            registry,
            seen,
            depth,
            values.len(),
        ),
        PatternModel::OneOrMore(values) => support_walk_all(
            values,
            defs,
            registry,
            seen,
            depth,
            values.len(),
        ),
        PatternModel::List(values) => support_walk_all(
            values,
            defs,
            registry,
            seen,
            depth,
            values.len(),
        ),
        PatternModel::Ref(name) => if seen.contains(name) || depth == 0 {
            Ok(seen)
        } else {
            match lookup(defs, name) {
                Some(target) => support_walk(
                    target,
                    defs,
                    registry,
                    seen.push(name),
                    (depth - 1) as nat,
                ),
                None => Ok(seen.push(name)),
            }
        },
        _ => Ok(seen),
    }
}

/// Checks the datatypes of the first `n` patterns.
pub open spec fn support_walk_all(
    s: Seq<PatternModel>,
    defs: Defs,
    registry: RegistryModel,
    seen: Seq<Text>,
    depth: nat,
    n: nat,
) -> Result<Seq<Text>, DatatypeProblem>
    decreases depth, s, n,
{
    if n == 0 || n > s.len() {
        Ok(seen)
    } else {
        match support_walk_all(s, defs, registry, seen, depth, (n - 1) as nat) {
            Err(problem) => Err(problem),
            Ok(met) => support_walk(s[n - 1], defs, registry, met, depth),
        }
    }
}

/// Checks the datatypes of the first `n` named patterns.
pub open spec fn support_walk_defs(
    defs: Defs,
    registry: RegistryModel,
    seen: Seq<Text>,
    depth: nat,
    n: nat,
) -> Result<Seq<Text>, DatatypeProblem>
    decreases n,
{
    if n == 0 || n > defs.len() {
        Ok(seen)
    } else {
        match support_walk_defs(defs, registry, seen, depth, (n - 1) as nat) {
            Err(problem) => Err(problem),
            Ok(met) => support_walk(defs[n - 1].1, defs, registry, met, depth),
        }
    }
}

/// The first problem with the datatypes of a schema: those of the start and then those of
/// every named pattern.
pub open spec fn schema_datatype_problem(
    schema: SchemaModel,
    registry: RegistryModel,
    depth: nat,
) -> Option<DatatypeProblem> {
    match support_walk(schema.start, schema.definitions, registry, Seq::empty(), depth) {
        Err(problem) => Some(problem),
        Ok(met) => match support_walk_defs(
            schema.definitions,
            registry,
            met,
            depth,
            schema.definitions.len(),
        ) {
            Err(problem) => Some(problem),
            Ok(_) => None,
        },
    }
}

/// Whether every `data` and `value` inside a pattern, `ref`s apart, is one that the
/// registry can handle.
pub open spec fn supported(p: PatternModel, registry: RegistryModel) -> bool
    decreases p,
{
    match p {
        PatternModel::Data { datatype, datatype_library, params, except, context } =>
            datatype_problem(
                registry,
                or_empty(datatype_library),
                datatype,
                param_texts(params),
            ) is None && all_supported(except, registry),
        PatternModel::Value { value, datatype, datatype_library, namespace, context } =>
            datatype_problem(
                registry,
                or_empty(datatype_library),
                value_type(datatype),
                Seq::empty(),
            ) is None,
        PatternModel::Element { name, body, context } => all_supported(body, registry),
        PatternModel::Attribute { name, body, context } => all_supported(body, registry),
        PatternModel::Group(values) => all_supported(values, registry),
        PatternModel::Interleave(values) => all_supported(values, registry),
        PatternModel::Choice(values) => all_supported(values, registry),
        PatternModel::OneOrMore(values) => all_supported(values, registry),
        PatternModel::List(values) => all_supported(values, registry),
        _ => true,
    }
}

/// Whether every `data` and `value` inside the patterns is one that the registry can
/// handle.
pub open spec fn all_supported(s: Seq<PatternModel>, registry: RegistryModel) -> bool
    decreases s,
{
    forall|i: int| 0 <= i < s.len() ==> supported(#[trigger] s[i], registry)
}

/// Whether every named pattern is one that the registry can handle.
pub open spec fn defs_supported(defs: Defs, registry: RegistryModel) -> bool {
    forall|i: int| 0 <= i < defs.len() ==> supported((#[trigger] defs[i]).1, registry)
}

/// Checks a datatype and its parameters.
fn check_datatype(
    registry: &DatatypeRegistry,
    library: &str,
    datatype: &str,
    params: &[(&str, &str)],
) -> (r: Result<(), DatatypeError>)
    ensures
        match r {
            Ok(_) => datatype_problem(registry@, library@, datatype@, pairs(params@)) is None,
            Err(error) => datatype_problem(registry@, library@, datatype@, pairs(params@)) == Some(
                error@,
            ),
        },
{
    match registry.get(library) {
        None => Err(DatatypeError::unsupported_library(library)),
        Some(implementation) => match implementation.validate_params(datatype, params) {
            Ok(_) => Ok(()),
            Err(reason) => Err(DatatypeError::type_problem(library, datatype, reason.as_str())),
        },
    }
}

/// Whether the result of a walk is as stated: the names met so far, or the problem.
spec fn walked(
    r: Result<(), DatatypeError>,
    seen: Seq<String>,
    want: Result<Seq<Text>, DatatypeProblem>,
) -> bool {
    match r {
        Ok(_) => want == Ok::<Seq<Text>, DatatypeProblem>(texts(seen)),
        Err(error) => want == Err::<Seq<Text>, DatatypeProblem>(error@),
    }
}

/// Checks that every `data` and `value` of a pattern uses a library that `registry` has,
/// with a known type name and well-formed, applicable parameters; see [`support_walk`].
fn check_datatypes_supported(
    pattern: &Pattern,
    definitions: &Definitions,
    registry: &DatatypeRegistry,
    checked_refs: &mut Vec<String>,
    depth: u64,
) -> (r: Result<(), DatatypeError>)
    ensures
        walked(
            r,
            final(checked_refs)@,
            support_walk(
                pattern@,
                definitions@,
                registry@,
                texts(old(checked_refs)@),
                depth as nat,
            ),
        ),
    decreases depth, pattern,
{
    proof {
        pattern.lemma_model();
    }
    match pattern {
        Pattern::Data { datatype, datatype_library, params, except, context } => {
            let library = copy_or_empty(datatype_library);
            let arguments = param_pairs(params);
            match check_datatype(
                registry,
                library.as_str(),
                datatype.as_str(),
                arguments.as_slice(),
            ) {
                Err(error) => Err(error),
                Ok(_) => check_all_datatypes_supported(
                    except,
                    definitions,
                    registry,
                    checked_refs,
                    depth,
                ),
            }
        },
        Pattern::Value { value, datatype, datatype_library, namespace, context } => {
            let library = copy_or_empty(datatype_library);
            let name = value_type_name(datatype);
            let none: Vec<(&str, &str)> = Vec::new();
            assert(pairs(none@) =~= Seq::<(Text, Text)>::empty());
            check_datatype(registry, library.as_str(), name.as_str(), none.as_slice())
        },
        Pattern::Element { name, body, context } => check_all_datatypes_supported(
            body,
            definitions,
            registry,
            checked_refs,
            depth,
        ),
        Pattern::Attribute { name, body, context } => check_all_datatypes_supported(
            body,
            definitions,
            registry,
            checked_refs,
            depth,
        ),
        Pattern::Group(values) => check_all_datatypes_supported(
            values,
            definitions,
            registry,
            checked_refs,
            depth,
        ),
        Pattern::Interleave(values) => check_all_datatypes_supported(
            values,
            definitions,
            registry,
            checked_refs,
            depth,
        ),
        Pattern::Choice(values) => check_all_datatypes_supported(
            values,
            definitions,
            registry,
            checked_refs,
            depth,
        ),
        Pattern::OneOrMore(values) => check_all_datatypes_supported(
            values,
            definitions,
            registry,
            checked_refs,
            depth,
        ),
        Pattern::List(values) => check_all_datatypes_supported(
            values,
            definitions,
            registry,
            checked_refs,
            depth,
        ),
        Pattern::Ref(name) => {
            if holds(checked_refs, name.as_str()) || depth == 0 {
                return Ok(());
            }
            let ghost before = texts(checked_refs@);
            checked_refs.push(name.clone());
            assert(texts(checked_refs@) =~= before.push(name@));
            match definitions.get(name.as_str()) {
                Some(target) => check_datatypes_supported(
                    target,
                    definitions,
                    registry,
                    checked_refs,
                    depth - 1,
                ),
                None => Ok(()),
            }
        },
        _ => Ok(()),
    }
}

/// Checks each pattern in turn; see [`support_walk_all`].
fn check_all_datatypes_supported(
    values: &Vec<Pattern>,
    definitions: &Definitions,
    registry: &DatatypeRegistry,
    checked_refs: &mut Vec<String>,
    depth: u64,
) -> (r: Result<(), DatatypeError>)
    ensures
        walked(
            r,
            final(checked_refs)@,
            support_walk_all(
                patterns_of(values@),
                definitions@,
                registry@,
                texts(old(checked_refs)@),
                depth as nat,
                values@.len(),
            ),
        ),
    decreases depth, values,
{
    let ghost models = patterns_of(values@);
    let ghost before = texts(checked_refs@);
    let mut i: usize = 0;
    while i < values.len()
        invariant
            i <= values.len(),
            models == patterns_of(values@),
            before == texts(old(checked_refs)@),
            support_walk_all(models, definitions@, registry@, before, depth as nat, i as nat)
                == Ok::<Seq<Text>, DatatypeProblem>(texts(checked_refs@)),
        decreases values.len() - i,
    {
        let checked = check_datatypes_supported(
            &values[i],
            definitions,
            registry,
            checked_refs,
            depth,
        );
        if checked.is_err() {
            proof {
                lemma_support_walk_all_first(
                    models,
                    definitions@,
                    registry@,
                    before,
                    depth as nat,
                    (i + 1) as nat,
                );
            }
            return checked;
        }
        i += 1;
    }
    Ok(())
}

/// The first problem of a prefix is that of all.
proof fn lemma_support_walk_all_first(
    s: Seq<PatternModel>,
    defs: Defs,
    registry: RegistryModel,
    seen: Seq<Text>,
    depth: nat,
    n: nat,
)
    requires
        n <= s.len(),
        support_walk_all(s, defs, registry, seen, depth, n) is Err,
    ensures
        support_walk_all(s, defs, registry, seen, depth, s.len()) == support_walk_all(
            s,
            defs,
            registry,
            seen,
            depth,
            n,
        ),
    decreases s.len() - n,
{
    if n < s.len() {
        lemma_support_walk_all_first(s, defs, registry, seen, depth, n + 1);
    }
}

/// The first problem of a prefix is that of all.
proof fn lemma_support_walk_defs_first(
    defs: Defs,
    registry: RegistryModel,
    seen: Seq<Text>,
    depth: nat,
    n: nat,
)
    requires
        n <= defs.len(),
        support_walk_defs(defs, registry, seen, depth, n) is Err,
    ensures
        support_walk_defs(defs, registry, seen, depth, defs.len()) == support_walk_defs(
            defs,
            registry,
            seen,
            depth,
            n,
        ),
    decreases defs.len() - n,
{
    if n < defs.len() {
        lemma_support_walk_defs_first(defs, registry, seen, depth, n + 1);
    }
}

/// Checks the datatypes of a whole schema; see [`schema_datatype_problem`].
fn check_schema_datatypes(schema: &CompiledSchema, registry: &DatatypeRegistry) -> (r: Result<
    (),
    DatatypeError,
>)
    ensures
        match r {
            Ok(_) => schema_datatype_problem(schema@, registry@, MAX_DEPTH as nat) is None,
            Err(error) => schema_datatype_problem(schema@, registry@, MAX_DEPTH as nat) == Some(
                error@,
            ),
        },
{
    let mut checked_refs: Vec<String> = Vec::new();
    assert(texts(checked_refs@) =~= Seq::<Text>::empty());
    let checked = check_datatypes_supported(
        &schema.start,
        &schema.definitions,
        registry,
        &mut checked_refs,
        MAX_DEPTH,
    );
    if checked.is_err() {
        return checked;
    }
    let ghost met = texts(checked_refs@);
    let definitions = &schema.definitions;
    let mut i: usize = 0;
    while i < definitions.len()
        invariant
            i <= definitions@.len(),
            definitions == schema.definitions,
            support_walk(
                schema@.start,
                schema@.definitions,
                registry@,
                Seq::empty(),
                MAX_DEPTH as nat,
            ) == Ok::<Seq<Text>, DatatypeProblem>(met),
            support_walk_defs(definitions@, registry@, met, MAX_DEPTH as nat, i as nat) == Ok::<
                Seq<Text>,
                DatatypeProblem,
            >(texts(checked_refs@)),
        decreases definitions@.len() - i,
    {
        let checked = check_datatypes_supported(
            definitions.value_at(i),
            definitions,
            registry,
            &mut checked_refs,
            MAX_DEPTH,
        );
        if checked.is_err() {
            proof {
                lemma_support_walk_defs_first(
                    definitions@,
                    registry@,
                    met,
                    MAX_DEPTH as nat,
                    (i + 1) as nat,
                );
            }
            return checked;
        }
        i += 1;
    }
    Ok(())
}

// ---------------------------------------------------------------------
// What is valid
// ---------------------------------------------------------------------

/// What is left of a pattern after the first `n` attributes, where each of them fits.
pub open spec fn taken_attributes(
    pattern: PatternModel,
    attributes: Seq<(NameView, Text)>,
    n: nat,
    bindings: Bindings,
    defs: Defs,
    registry: RegistryModel,
) -> Option<PatternModel>
    decreases n,
{
    if n == 0 || n > attributes.len() {
        Some(pattern)
    } else {
        match taken_attributes(pattern, attributes, (n - 1) as nat, bindings, defs, registry) {
            None => None,
            Some(p) => {
                let (name, value) = attributes[n - 1];
                let derived = attribute_derivative(
                    p,
                    name,
                    value,
                    defs,
                    registry,
                    bindings,
                    MAX_DEPTH as nat,
                );
                if derived is NotAllowed {
                    None
                } else {
                    Some(derived)
                }
            },
        }
    }
}

/// What is left of a pattern after the first `n` children, where each of them fits. Text of
/// nothing but white space that does not fit is left out where nothing wants text.
pub open spec fn taken_children(
    pattern: PatternModel,
    children: Seq<ContentModel>,
    n: nat,
    bindings: Bindings,
    defs: Defs,
    registry: RegistryModel,
) -> Option<PatternModel>
    decreases children, n,
{
    if n == 0 || n > children.len() {
        Some(pattern)
    } else {
        match taken_children(pattern, children, (n - 1) as nat, bindings, defs, registry) {
            None => None,
            Some(p) => match children[n - 1] {
                ContentModel::Text(text) => {
                    let derived = text_derivative(
                        p,
                        text,
                        defs,
                        registry,
                        bindings,
                        MAX_DEPTH as nat,
                    );
                    if !(derived is NotAllowed) {
                        Some(derived)
                    } else if !blank(text) || expects_text(p, defs, MAX_DEPTH as nat) {
                        None
                    } else {
                        Some(p)
                    }
                },
                ContentModel::Element(child) => {
                    let derived = child_derivative(
                        p,
                        child_event(child, defs, registry),
                        defs,
                        MAX_DEPTH as nat,
                    );
                    if derived is NotAllowed {
                        None
                    } else {
                        Some(derived)
                    }
                },
            },
        }
    }
}

/// A child element, which is what an element pattern describes where it has such a name and
/// its content is valid there.
pub open spec fn child_event(child: ElementModel, defs: Defs, registry: RegistryModel) -> Child
    decreases child, 1nat,
{
    Child::Element(
        |class: NameModel, body: Seq<PatternModel>|
            holds_name(class, child.name.namespace, child.name.local) && body.len() > 0 && is_valid(
                body[0],
                child,
                defs,
                registry,
            ),
    )
}

/// Whether an element's attributes and children are what a content model describes. The
/// attributes are taken in the order of their names.
pub open spec fn is_valid(
    content: PatternModel,
    element: ElementModel,
    defs: Defs,
    registry: RegistryModel,
) -> bool
    decreases element, 0nat,
{
    let attributes = in_order(element.attributes);
    match taken_attributes(
        content,
        attributes,
        attributes.len(),
        element.bindings,
        defs,
        registry,
    ) {
        None => false,
        Some(p) => match taken_children(
            p,
            element.children,
            element.children.len(),
            element.bindings,
            defs,
            registry,
        ) {
            None => false,
            Some(q) => is_nullable(q, defs, registry, MAX_DEPTH as nat),
        },
    }
}

/// Whether an element can be next, as what some element pattern describes.
pub open spec fn child_fits(
    p: PatternModel,
    child: ElementModel,
    defs: Defs,
    registry: RegistryModel,
) -> bool {
    !(child_derivative(p, child_event(child, defs, registry), defs, MAX_DEPTH as nat)
        is NotAllowed)
}

// ---------------------------------------------------------------------
// What the problems are
// ---------------------------------------------------------------------

/// What is left of a pattern after the first `n` attributes, and the problems with them.
/// An attribute that does not fit leaves the pattern as it is.
pub open spec fn after_attributes(
    pattern: PatternModel,
    attributes: Seq<(NameView, Text)>,
    n: nat,
    element: ElementModel,
    path: Seq<NameView>,
    defs: Defs,
    registry: RegistryModel,
) -> (PatternModel, Seq<ErrorModel>)
    decreases n,
{
    if n == 0 || n > attributes.len() {
        (pattern, Seq::empty())
    } else {
        let (p, errors) = after_attributes(
            pattern,
            attributes,
            (n - 1) as nat,
            element,
            path,
            defs,
            registry,
        );
        let (name, value) = attributes[n - 1];
        if !knows_attribute(p, name, defs, MAX_DEPTH as nat) {
            (
                p,
                errors.push(
                    ErrorModel {
                        kind: KindModel::UnexpectedAttribute(name),
                        path,
                        location: element.location,
                    },
                ),
            )
        } else {
            let derived = attribute_derivative(
                p,
                name,
                value,
                defs,
                registry,
                element.bindings,
                MAX_DEPTH as nat,
            );
            if derived is NotAllowed {
                (
                    p,
                    errors.push(
                        ErrorModel {
                            kind: KindModel::InvalidAttributeValue(name, value),
                            path,
                            location: element.location,
                        },
                    ),
                )
            } else {
                (derived, errors)
            }
        }
    }
}

/// What is left of a pattern after the first `n` children, and the problems with them.
/// Text of nothing but white space that does not fit is left out where nothing wants
/// text. A child that does not fit is passed over by its name, and one that is not expected
/// leaves the pattern as it is.
pub open spec fn after_children(
    pattern: PatternModel,
    children: Seq<ContentModel>,
    n: nat,
    location: Option<Text>,
    bindings: Bindings,
    path: Seq<NameView>,
    defs: Defs,
    registry: RegistryModel,
) -> (PatternModel, Seq<ErrorModel>)
    decreases children, n,
{
    if n == 0 || n > children.len() {
        (pattern, Seq::empty())
    } else {
        let (p, errors) = after_children(
            pattern,
            children,
            (n - 1) as nat,
            location,
            bindings,
            path,
            defs,
            registry,
        );
        match children[n - 1] {
            ContentModel::Text(text) => {
                let derived = text_derivative(
                    p,
                    text,
                    defs,
                    registry,
                    bindings,
                    MAX_DEPTH as nat,
                );
                if !(derived is NotAllowed) {
                    (derived, errors)
                } else if !blank(text) || expects_text(p, defs, MAX_DEPTH as nat) {
                    (
                        p,
                        errors.push(
                            ErrorModel { kind: KindModel::UnexpectedText, path, location },
                        ),
                    )
                } else {
                    (p, errors)
                }
            },
            ContentModel::Element(child) => {
                let derived = child_derivative(
                    p,
                    child_event(child, defs, registry),
                    defs,
                    MAX_DEPTH as nat,
                );
                if !(derived is NotAllowed) {
                    (derived, errors)
                } else {
                    match child_content(p, child.name, defs, MAX_DEPTH as nat) {
                        Some(content) => (
                            child_derivative(p, named(child.name), defs, MAX_DEPTH as nat),
                            errors + misfit_errors(content, child, path, defs, registry),
                        ),
                        None => (p, errors.push(unexpected_element(child, path))),
                    }
                }
            },
        }
    }
}

/// The problem that an element is not allowed where it stands. Its path ends with it.
pub open spec fn unexpected_element(element: ElementModel, path: Seq<NameView>) -> ErrorModel {
    ErrorModel {
        kind: KindModel::UnexpectedElement(element.name),
        path: path.push(element.name),
        location: element.location,
    }
}

/// The problem that something is missing in an element.
pub open spec fn missing_content(element: ElementModel, path: Seq<NameView>) -> ErrorModel {
    ErrorModel {
        kind: KindModel::MissingContent,
        path: path.push(element.name),
        location: element.location,
    }
}

/// The problems met in reading an element whose content must match a pattern: those of its
/// attributes, those of its children and, last, that something is missing.
pub open spec fn problems_met(
    content: PatternModel,
    element: ElementModel,
    path: Seq<NameView>,
    defs: Defs,
    registry: RegistryModel,
) -> Seq<ErrorModel>
    decreases element, 0nat,
{
    let here = path.push(element.name);
    let (p, attribute_errors) = after_attributes(
        content,
        element.attributes,
        element.attributes.len(),
        element,
        here,
        defs,
        registry,
    );
    let (q, child_errors) = after_children(
        p,
        element.children,
        element.children.len(),
        element.location,
        element.bindings,
        here,
        defs,
        registry,
    );
    let errors = attribute_errors + child_errors;
    if is_nullable(q, defs, registry, MAX_DEPTH as nat) {
        errors
    } else {
        errors.push(missing_content(element, path))
    }
}

/// The problems of an element whose content must match a pattern: none where it is valid,
/// and otherwise those met in reading it. Where none is met, something is missing.
pub open spec fn element_errors(
    content: PatternModel,
    element: ElementModel,
    path: Seq<NameView>,
    defs: Defs,
    registry: RegistryModel,
) -> Seq<ErrorModel>
    decreases element, 1nat,
{
    if is_valid(content, element, defs, registry) {
        Seq::empty()
    } else {
        let met = problems_met(content, element, path, defs, registry);
        if met.len() > 0 {
            met
        } else {
            seq![missing_content(element, path)]
        }
    }
}

/// The problems of an element that fits none of the content models of its name: those that
/// it has with all of them as alternatives. Where it has none with them all, it does not
/// go with what may follow, and is not expected.
pub open spec fn misfit_errors(
    content: PatternModel,
    element: ElementModel,
    path: Seq<NameView>,
    defs: Defs,
    registry: RegistryModel,
) -> Seq<ErrorModel>
    decreases element, 2nat,
{
    let errors = element_errors(content, element, path, defs, registry);
    if errors.len() > 0 {
        errors
    } else {
        seq![unexpected_element(element, path)]
    }
}

/// The problems of a document.
pub open spec fn document_errors(
    schema: SchemaModel,
    registry: RegistryModel,
    root: ElementModel,
) -> Seq<ErrorModel> {
    if child_fits(schema.start, root, schema.definitions, registry) {
        Seq::empty()
    } else {
        match child_content(schema.start, root.name, schema.definitions, MAX_DEPTH as nat) {
            Some(content) => misfit_errors(
                content,
                root,
                Seq::empty(),
                schema.definitions,
                registry,
            ),
            None => seq![unexpected_element(root, Seq::empty())],
        }
    }
}

/// No problem is found with an element exactly where it is valid.
pub proof fn law_valid_elements_have_no_problems(
    content: PatternModel,
    element: ElementModel,
    path: Seq<NameView>,
    defs: Defs,
    registry: RegistryModel,
)
    ensures
        element_errors(content, element, path, defs, registry).len() == 0 <==> is_valid(
            content,
            element,
            defs,
            registry,
        ),
{
}

/// No problem is found with a document exactly where its root is what the schema can start
/// with.
pub proof fn law_valid_documents_have_no_problems(
    schema: SchemaModel,
    registry: RegistryModel,
    root: ElementModel,
)
    ensures
        document_errors(schema, registry, root).len() == 0 <==> child_fits(
            schema.start,
            root,
            schema.definitions,
            registry,
        ),
{
}

/// Appends the problems with the attributes of an element, and gives what is left of the
/// pattern.
fn validate_attributes<E: Element>(
    content: &Pattern,
    element: &E,
    context: &DatatypeContext,
    definitions: &Definitions,
    registry: &DatatypeRegistry,
    path: &Vec<ExpandedName>,
    errors: &mut Vec<ValidationError>,
) -> (r: Pattern)
    requires
        context@ == element.model().bindings,
    ensures
        r@ == after_attributes(
            content@,
            element.model().attributes,
            element.model().attributes.len(),
            element.model(),
            names_view(path@),
            definitions@,
            registry@,
        ).0,
        errors_of(final(errors)@) == errors_of(old(errors)@) + after_attributes(
            content@,
            element.model().attributes,
            element.model().attributes.len(),
            element.model(),
            names_view(path@),
            definitions@,
            registry@,
        ).1,
{
    let ghost model = element.model();
    let ghost here = names_view(path@);
    let ghost before = errors_of(errors@);
    let attributes = element.attributes();
    let mut pattern = copy_pattern(content);
    let mut i: usize = 0;
    assert(before + Seq::<ErrorModel>::empty() =~= before);
    while i < attributes.len()
        invariant
            i <= attributes.len(),
            model == element.model(),
            here == names_view(path@),
            context@ == model.bindings,
            attributes_of(attributes@) == model.attributes,
            pattern@ == after_attributes(
                content@,
                model.attributes,
                i as nat,
                model,
                here,
                definitions@,
                registry@,
            ).0,
            errors_of(errors@) == before + after_attributes(
                content@,
                model.attributes,
                i as nat,
                model,
                here,
                definitions@,
                registry@,
            ).1,
        decreases attributes.len() - i,
    {
        let name = &attributes[i].0;
        let value = &attributes[i].1;
        assert(model.attributes[i as int] == (name@, value@));
        if !attribute_name_known_within(&pattern, name, definitions, MAX_DEPTH) {
            report(
                errors,
                ValidationErrorKind::UnexpectedAttribute(name.copy()),
                path,
                element.location(),
            );
        } else {
            let derived = deriv_attribute_within(
                &pattern,
                name,
                value.as_str(),
                definitions,
                registry,
                context,
                MAX_DEPTH,
            );
            if is_not_allowed(&derived) {
                report(
                    errors,
                    ValidationErrorKind::InvalidAttributeValue(name.copy(), value.clone()),
                    path,
                    element.location(),
                );
            } else {
                pattern = derived;
            }
        }
        i += 1;
        assert(errors_of(errors@) =~= before + after_attributes(
            content@,
            model.attributes,
            i as nat,
            model,
            here,
            definitions@,
            registry@,
        ).1);
    }
    pattern
}

/// What is left of `content` after the attributes of an element, in the order of their names,
/// where each of them fits; see [`taken_attributes`].
fn take_attributes<E: Element>(
    content: &Pattern,
    element: &E,
    context: &DatatypeContext,
    definitions: &Definitions,
    registry: &DatatypeRegistry,
) -> (r: Option<Pattern>)
    requires
        context@ == element.model().bindings,
    ensures
        opt_pattern(r) == taken_attributes(
            content@,
            in_order(element.model().attributes),
            in_order(element.model().attributes).len(),
            context@,
            definitions@,
            registry@,
        ),
{
    let attributes = sort_attributes(&element.attributes());
    let ghost sorted = in_order(element.model().attributes);
    let mut pattern = copy_pattern(content);
    let mut i: usize = 0;
    while i < attributes.len()
        invariant
            i <= attributes.len(),
            sorted == attributes_of(attributes@),
            sorted == in_order(element.model().attributes),
            taken_attributes(content@, sorted, i as nat, context@, definitions@, registry@) == Some(
                pattern@,
            ),
        decreases attributes.len() - i,
    {
        let name = &attributes[i].0;
        let value = &attributes[i].1;
        assert(sorted[i as int] == (name@, value@));
        let derived = deriv_attribute_within(
            &pattern,
            name,
            value.as_str(),
            definitions,
            registry,
            context,
            MAX_DEPTH,
        );
        if is_not_allowed(&derived) {
            proof {
                lemma_attributes_stuck(
                    content@,
                    sorted,
                    (i + 1) as nat,
                    context@,
                    definitions@,
                    registry@,
                );
            }
            return None;
        }
        pattern = derived;
        i += 1;
    }
    Some(pattern)
}

/// The model of an optional pattern.
pub open spec fn opt_pattern(p: Option<Pattern>) -> Option<PatternModel> {
    match p {
        Some(p) => Some(p@),
        None => None,
    }
}

/// What comes after an attribute that does not fit does not help.
proof fn lemma_attributes_stuck(
    pattern: PatternModel,
    attributes: Seq<(NameView, Text)>,
    n: nat,
    bindings: Bindings,
    defs: Defs,
    registry: RegistryModel,
)
    requires
        n <= attributes.len(),
        taken_attributes(pattern, attributes, n, bindings, defs, registry) is None,
    ensures
        taken_attributes(pattern, attributes, attributes.len(), bindings, defs, registry) is None,
    decreases attributes.len() - n,
{
    if n < attributes.len() {
        lemma_attributes_stuck(pattern, attributes, n + 1, bindings, defs, registry);
    }
}

/// What comes after a child that does not fit does not help.
proof fn lemma_children_stuck(
    pattern: PatternModel,
    children: Seq<ContentModel>,
    n: nat,
    bindings: Bindings,
    defs: Defs,
    registry: RegistryModel,
)
    requires
        n <= children.len(),
        taken_children(pattern, children, n, bindings, defs, registry) is None,
    ensures
        taken_children(pattern, children, children.len(), bindings, defs, registry) is None,
    decreases children.len() - n,
{
    if n < children.len() {
        lemma_children_stuck(pattern, children, n + 1, bindings, defs, registry);
    }
}

/// Whether an element's attributes and children are what `content` describes; see
/// [`is_valid`].
fn element_is_valid<E: Element>(
    content: &Pattern,
    element: &E,
    definitions: &Definitions,
    registry: &DatatypeRegistry,
) -> (r: bool)
    ensures
        r == is_valid(content@, element.model(), definitions@, registry@),
    decreases element.model(), 0nat, 0nat, content,
{
    let ghost model = element.model();
    let context = DatatypeContext::from_bindings(element.namespace_bindings());
    let mut pattern = match take_attributes(content, element, &context, definitions, registry) {
        None => {
            return false;
        },
        Some(pattern) => pattern,
    };
    let ghost start = pattern@;
    let children = element.children();
    assert(contents_of(children@) =~= model.children);
    let mut i: usize = 0;
    while i < children.len()
        invariant
            i <= children.len(),
            model == element.model(),
            context@ == model.bindings,
            contents_of(children@) == model.children,
            taken_attributes(
                content@,
                in_order(model.attributes),
                in_order(model.attributes).len(),
                model.bindings,
                definitions@,
                registry@,
            ) == Some(start),
            taken_children(
                start,
                model.children,
                i as nat,
                model.bindings,
                definitions@,
                registry@,
            ) == Some(pattern@),
        decreases children.len() - i,
    {
        let child = &children[i];
        assert(model.children[i as int] == content_of(*child));
        match child {
            Content::Text(text) => {
                let derived = deriv_text_within(
                    &pattern,
                    text.as_str(),
                    definitions,
                    registry,
                    &context,
                    MAX_DEPTH,
                );
                if !is_not_allowed(&derived) {
                    pattern = derived;
                } else if !is_blank(text.as_str()) || wants_text(
                    &pattern,
                    definitions,
                    MAX_DEPTH,
                ) {
                    proof {
                        lemma_children_stuck(
                            start,
                            model.children,
                            (i + 1) as nat,
                            model.bindings,
                            definitions@,
                            registry@,
                        );
                    }
                    return false;
                }
            },
            Content::Element(child_element) => {
                assert(model.children[i as int]->Element_0 == child_element.model());
                let derived = deriv_child(&pattern, child_element, definitions, registry);
                if is_not_allowed(&derived) {
                    proof {
                        lemma_children_stuck(
                            start,
                            model.children,
                            (i + 1) as nat,
                            model.bindings,
                            definitions@,
                            registry@,
                        );
                    }
                    return false;
                }
                pattern = derived;
            },
        }
        i += 1;
    }
    nullable_within(&pattern, definitions, registry, MAX_DEPTH)
}

/// What a child is known to leave of named patterns: the names, the depths to which
/// references are followed in them, and what is left.
pub open spec fn known(
    seen: Seq<(String, u64, Pattern)>,
    child: Child,
    defs: Defs,
) -> bool {
    forall|i: int|
        0 <= i < seen.len() ==> match lookup(defs, (#[trigger] seen[i]).0@) {
            Some(target) => seen[i].2@ == child_derivative(target, child, defs, seen[i].1 as nat),
            None => false,
        }
}

/// Where what a child leaves of a named pattern is known.
fn find_known(seen: &Vec<(String, u64, Pattern)>, name: &str, depth: u64) -> (r: Option<usize>)
    ensures
        match r {
            Some(i) => i < seen.len() && seen@[i as int].0@ == name@ && seen@[i as int].1 == depth,
            None => true,
        },
{
    let mut i: usize = 0;
    while i < seen.len()
        invariant
            i <= seen.len(),
        decreases seen.len() - i,
    {
        if seen[i].1 == depth && same(seen[i].0.as_str(), name) {
            return Some(i);
        }
        i += 1;
    }
    None
}

/// The derivative of `pattern` with respect to a child element; see [`deriv_child_within`].
fn deriv_child<E: Element>(
    pattern: &Pattern,
    child: &E,
    definitions: &Definitions,
    registry: &DatatypeRegistry,
) -> (r: Pattern)
    ensures
        r@ == child_derivative(
            pattern@,
            child_event(child.model(), definitions@, registry@),
            definitions@,
            MAX_DEPTH as nat,
        ),
    decreases child.model(), 2nat, 0nat, pattern,
{
    let mut seen: Vec<(String, u64, Pattern)> = Vec::new();
    deriv_child_within(pattern, child, definitions, registry, MAX_DEPTH, &mut seen)
}

/// The derivative of `pattern` with respect to a child element, as what those element
/// patterns describe where its content is valid; see [`child_event`]. What is left of a named
/// pattern is found once.
fn deriv_child_within<E: Element>(
    pattern: &Pattern,
    child: &E,
    definitions: &Definitions,
    registry: &DatatypeRegistry,
    depth: u64,
    seen: &mut Vec<(String, u64, Pattern)>,
) -> (r: Pattern)
    requires
        known(old(seen)@, child_event(child.model(), definitions@, registry@), definitions@),
    ensures
        known(final(seen)@, child_event(child.model(), definitions@, registry@), definitions@),
        r@ == child_derivative(
            pattern@,
            child_event(child.model(), definitions@, registry@),
            definitions@,
            depth as nat,
        ),
    decreases child.model(), 1nat, depth as nat, pattern,
{
    proof {
        pattern.lemma_model();
    }
    match pattern {
        Pattern::Element { name: class, body, context } => {
            let name = child.name();
            if name_class_matches(class, &name.namespace, name.local.as_str()) && body.len() > 0
                && element_is_valid(&body[0], child, definitions, registry) {
                Pattern::Empty
            } else {
                Pattern::NotAllowed
            }
        },
        Pattern::Group(values) => {
            let derived = deriv_children(values, child, definitions, registry, depth, seen);
            deriv_positions(values, derived, true, Container::Group, definitions, depth)
        },
        Pattern::Interleave(values) => {
            let derived = deriv_children(values, child, definitions, registry, depth, seen);
            deriv_positions(values, derived, false, Container::Interleave, definitions, depth)
        },
        Pattern::Choice(values) => choice(
            deriv_children(values, child, definitions, registry, depth, seen),
        ),
        Pattern::OneOrMore(values) => {
            if values.len() > 0 {
                let derived = deriv_child_within(
                    &values[0],
                    child,
                    definitions,
                    registry,
                    depth,
                    seen,
                );
                one_or_more_deriv(derived, pattern)
            } else {
                Pattern::NotAllowed
            }
        },
        Pattern::Ref(target_name) => {
            if depth == 0 {
                return Pattern::NotAllowed;
            }
            match definitions.get(target_name.as_str()) {
                Some(target) => {
                    match find_known(seen, target_name.as_str(), depth - 1) {
                        Some(i) => copy_pattern(&seen[i].2),
                        None => {
                            let left = deriv_child_within(
                                target,
                                child,
                                definitions,
                                registry,
                                depth - 1,
                                seen,
                            );
                            seen.push((target_name.clone(), depth - 1, copy_pattern(&left)));
                            left
                        },
                    }
                },
                None => Pattern::NotAllowed,
            }
        },
        _ => Pattern::NotAllowed,
    }
}

/// The derivative of each pattern with respect to a child element.
fn deriv_children<E: Element>(
    values: &Vec<Pattern>,
    child: &E,
    definitions: &Definitions,
    registry: &DatatypeRegistry,
    depth: u64,
    seen: &mut Vec<(String, u64, Pattern)>,
) -> (r: Vec<Pattern>)
    requires
        known(old(seen)@, child_event(child.model(), definitions@, registry@), definitions@),
    ensures
        known(final(seen)@, child_event(child.model(), definitions@, registry@), definitions@),
        r@.len() == values@.len(),
        patterns_of(r@) == child_derivatives(
            patterns_of(values@),
            child_event(child.model(), definitions@, registry@),
            definitions@,
            depth as nat,
        ),
    decreases child.model(), 1nat, depth as nat, values,
{
    let ghost models = patterns_of(values@);
    let ghost event = child_event(child.model(), definitions@, registry@);
    let mut out: Vec<Pattern> = Vec::new();
    let mut i: usize = 0;
    while i < values.len()
        invariant
            i <= values.len(),
            models == patterns_of(values@),
            event == child_event(child.model(), definitions@, registry@),
            known(seen@, event, definitions@),
            out.len() == i,
            forall|j: int|
                0 <= j < i ==> (#[trigger] patterns_of(out@)[j]) == child_derivative(
                    models[j],
                    event,
                    definitions@,
                    depth as nat,
                ),
        decreases values.len() - i,
    {
        let derived = deriv_child_within(&values[i], child, definitions, registry, depth, seen);
        let ghost before = patterns_of(out@);
        out.push(derived);
        i += 1;
        assert(patterns_of(out@) =~= before.push(derived@));
    }
    assert(patterns_of(out@) =~= child_derivatives(models, event, definitions@, depth as nat));
    out
}

/// Appends the problem that an element is not allowed where it stands.
fn report_unexpected<E: Element>(
    element: &E,
    path: &mut Vec<ExpandedName>,
    errors: &mut Vec<ValidationError>,
)
    ensures
        names_view(final(path)@) == names_view(old(path)@),
        errors_of(final(errors)@) == errors_of(old(errors)@).push(
            unexpected_element(element.model(), names_view(old(path)@)),
        ),
{
    let ghost outer = names_view(path@);
    path.push(element.name());
    assert(names_view(path@) =~= outer.push(element.model().name));
    report(
        errors,
        ValidationErrorKind::UnexpectedElement(element.name()),
        path,
        element.location(),
    );
    let ghost here = names_view(path@);
    path.pop();
    assert(names_view(path@) =~= here.drop_last());
    assert(here.drop_last() =~= outer);
}

/// Appends the problem that something is missing in an element.
fn report_missing<E: Element>(
    element: &E,
    path: &mut Vec<ExpandedName>,
    errors: &mut Vec<ValidationError>,
)
    ensures
        names_view(final(path)@) == names_view(old(path)@),
        errors_of(final(errors)@) == errors_of(old(errors)@).push(
            missing_content(element.model(), names_view(old(path)@)),
        ),
{
    let ghost outer = names_view(path@);
    path.push(element.name());
    assert(names_view(path@) =~= outer.push(element.model().name));
    report(errors, ValidationErrorKind::MissingContent, path, element.location());
    let ghost here = names_view(path@);
    path.pop();
    assert(names_view(path@) =~= here.drop_last());
    assert(here.drop_last() =~= outer);
}

/// Appends the problems met in reading an element whose content must match `content`; see
/// [`problems_met`].
fn collect_problems<E: Element>(
    content: &Pattern,
    element: &E,
    definitions: &Definitions,
    registry: &DatatypeRegistry,
    path: &mut Vec<ExpandedName>,
    errors: &mut Vec<ValidationError>,
)
    ensures
        names_view(final(path)@) == names_view(old(path)@),
        errors_of(final(errors)@) == errors_of(old(errors)@) + problems_met(
            content@,
            element.model(),
            names_view(old(path)@),
            definitions@,
            registry@,
        ),
    decreases element.model(), 0nat, 0nat, content,
{
    let ghost model = element.model();
    let ghost outer = names_view(path@);
    let ghost before = errors_of(errors@);
    let name = element.name();
    path.push(name);
    let ghost here = outer.push(model.name);
    assert(names_view(path@) =~= here);
    let context = DatatypeContext::from_bindings(element.namespace_bindings());
    let mut pattern = validate_attributes(
        content,
        element,
        &context,
        definitions,
        registry,
        path,
        errors,
    );
    let ghost start = pattern@;
    let ghost middle = errors_of(errors@);
    let children = element.children();
    assert(contents_of(children@) =~= model.children);
    let mut i: usize = 0;
    assert(middle + Seq::<ErrorModel>::empty() =~= middle);
    while i < children.len()
        invariant
            i <= children.len(),
            model == element.model(),
            names_view(path@) == here,
            context@ == model.bindings,
            contents_of(children@) == model.children,
            pattern@ == after_children(
                start,
                model.children,
                i as nat,
                model.location,
                model.bindings,
                here,
                definitions@,
                registry@,
            ).0,
            errors_of(errors@) == middle + after_children(
                start,
                model.children,
                i as nat,
                model.location,
                model.bindings,
                here,
                definitions@,
                registry@,
            ).1,
        decreases children.len() - i,
    {
        let child = &children[i];
        assert(model.children[i as int] == content_of(*child));
        match child {
            Content::Text(text) => {
                let derived = deriv_text_within(
                    &pattern,
                    text.as_str(),
                    definitions,
                    registry,
                    &context,
                    MAX_DEPTH,
                );
                if is_not_allowed(&derived) {
                    if !is_blank(text.as_str()) || wants_text(&pattern, definitions, MAX_DEPTH) {
                        report(
                            errors,
                            ValidationErrorKind::UnexpectedText,
                            path,
                            element.location(),
                        );
                    }
                } else {
                    pattern = derived;
                }
            },
            Content::Element(child_element) => {
                let child_name = child_element.name();
                assert(model.children[i as int]->Element_0 == child_element.model());
                let derived = deriv_child(&pattern, child_element, definitions, registry);
                if !is_not_allowed(&derived) {
                    pattern = derived;
                } else {
                    match find_element_contents_within(
                        &pattern,
                        &child_name,
                        definitions,
                        MAX_DEPTH,
                    ) {
                        Some(child_content) => {
                            report_misfit(
                                &child_content,
                                child_element,
                                definitions,
                                registry,
                                path,
                                errors,
                            );
                            pattern = deriv_element_within(
                                &pattern,
                                &child_name,
                                definitions,
                                MAX_DEPTH,
                            );
                        },
                        None => {
                            report_unexpected(child_element, path, errors);
                        },
                    }
                }
            },
        }
        i += 1;
        assert(errors_of(errors@) =~= middle + after_children(
            start,
            model.children,
            i as nat,
            model.location,
            model.bindings,
            here,
            definitions@,
            registry@,
        ).1);
    }
    if !nullable_within(&pattern, definitions, registry, MAX_DEPTH) {
        report(errors, ValidationErrorKind::MissingContent, path, element.location());
    }
    let ghost popped = names_view(path@);
    path.pop();
    assert(names_view(path@) =~= popped.drop_last());
    assert(here.drop_last() =~= outer);
    assert(errors_of(errors@) =~= before + problems_met(
        content@,
        model,
        outer,
        definitions@,
        registry@,
    ));
}

/// Appends the problems of an element whose content must match `content`; see
/// [`element_errors`].
fn validate_element_content<E: Element>(
    content: &Pattern,
    element: &E,
    definitions: &Definitions,
    registry: &DatatypeRegistry,
    path: &mut Vec<ExpandedName>,
    errors: &mut Vec<ValidationError>,
)
    ensures
        names_view(final(path)@) == names_view(old(path)@),
        errors_of(final(errors)@) == errors_of(old(errors)@) + element_errors(
            content@,
            element.model(),
            names_view(old(path)@),
            definitions@,
            registry@,
        ),
    decreases element.model(), 1nat, 0nat, content,
{
    let ghost before = errors_of(errors@);
    let ghost wanted = element_errors(
        content@,
        element.model(),
        names_view(path@),
        definitions@,
        registry@,
    );
    if !element_is_valid(content, element, definitions, registry) {
        let count = errors.len();
        collect_problems(content, element, definitions, registry, path, errors);
        assert(errors@.len() == errors_of(errors@).len());
        assert(before.len() == count);
        if errors.len() == count {
            report_missing(element, path, errors);
        }
    }
    assert(errors_of(errors@) =~= before + wanted);
}

/// Appends the problems of an element that fits none of the content models of its name; see
/// [`misfit_errors`].
fn report_misfit<E: Element>(
    content: &Pattern,
    element: &E,
    definitions: &Definitions,
    registry: &DatatypeRegistry,
    path: &mut Vec<ExpandedName>,
    errors: &mut Vec<ValidationError>,
)
    ensures
        names_view(final(path)@) == names_view(old(path)@),
        errors_of(final(errors)@) == errors_of(old(errors)@) + misfit_errors(
            content@,
            element.model(),
            names_view(old(path)@),
            definitions@,
            registry@,
        ),
    decreases element.model(), 2nat, 0nat, content,
{
    let ghost before = errors_of(errors@);
    let ghost wanted = misfit_errors(
        content@,
        element.model(),
        names_view(path@),
        definitions@,
        registry@,
    );
    let count = errors.len();
    validate_element_content(content, element, definitions, registry, path, errors);
    assert(errors@.len() == errors_of(errors@).len());
    assert(before.len() == count);
    if errors.len() == count {
        report_unexpected(element, path, errors);
    }
    assert(errors_of(errors@) =~= before + wanted);
}

/// Validates `root` against `schema`, using `registry` to check `data` and `value`
/// patterns. Returns the list of problems found (empty means valid), or a
/// [`DatatypeError`] instead of validating at all, if the schema uses a library, type or
/// parameter that `registry` does not recognize.
pub fn validate<E: Element>(schema: &CompiledSchema, registry: &DatatypeRegistry, root: &E) -> (r:
    Result<Vec<ValidationError>, DatatypeError>)
    ensures
        match r {
            Ok(errors) => schema_datatype_problem(schema@, registry@, MAX_DEPTH as nat) is None
                && errors_of(errors@) == document_errors(schema@, registry@, root.model()),
            Err(error) => schema_datatype_problem(schema@, registry@, MAX_DEPTH as nat) == Some(
                error@,
            ),
        },
{
    match check_schema_datatypes(schema, registry) {
        Err(error) => {
            return Err(error);
        },
        Ok(_) => {},
    }
    let mut errors: Vec<ValidationError> = Vec::new();
    let mut path: Vec<ExpandedName> = Vec::new();
    assert(errors_of(errors@) =~= Seq::<ErrorModel>::empty());
    assert(names_view(path@) =~= Seq::<NameView>::empty());
    let derived = deriv_child(&schema.start, root, &schema.definitions, registry);
    if is_not_allowed(&derived) {
        let name = root.name();
        match find_element_contents_within(&schema.start, &name, &schema.definitions, MAX_DEPTH) {
            Some(content) => {
                report_misfit(
                    &content,
                    root,
                    &schema.definitions,
                    registry,
                    &mut path,
                    &mut errors,
                );
            },
            None => {
                report_unexpected(root, &mut path, &mut errors);
            },
        }
    }
    assert(errors_of(errors@) =~= document_errors(schema@, registry@, root.model()));
    Ok(errors)
}

// ---------------------------------------------------------------------
// Derivatives without a depth
// ---------------------------------------------------------------------

/// Whether `pattern` accepts that nothing more follows.
pub fn nullable(pattern: &Pattern, definitions: &Definitions, registry: &DatatypeRegistry) -> (r:
    bool)
    ensures
        r == is_nullable(pattern@, definitions@, registry@, MAX_DEPTH as nat),
{
    nullable_within(pattern, definitions, registry, MAX_DEPTH)
}

/// The derivative of `pattern` with respect to an attribute.
pub fn deriv_attribute(
    pattern: &Pattern,
    name: &ExpandedName,
    value: &str,
    definitions: &Definitions,
    registry: &DatatypeRegistry,
    context: &DatatypeContext,
) -> (r: Pattern)
    ensures
        r@ == attribute_derivative(
            pattern@,
            name@,
            value@,
            definitions@,
            registry@,
            context@,
            MAX_DEPTH as nat,
        ),
{
    deriv_attribute_within(pattern, name, value, definitions, registry, context, MAX_DEPTH)
}

/// The derivative of `pattern` with respect to a child element, by its name alone: the
/// element's own content is validated apart.
pub fn deriv_element_event(pattern: &Pattern, name: &ExpandedName, definitions: &Definitions) -> (r:
    Pattern)
    ensures
        r@ == child_derivative(pattern@, named(name@), definitions@, MAX_DEPTH as nat),
{
    deriv_element_within(pattern, name, definitions, MAX_DEPTH)
}

/// The derivative of `pattern` with respect to a run of text.
pub fn deriv_text(
    pattern: &Pattern,
    text: &str,
    definitions: &Definitions,
    registry: &DatatypeRegistry,
    context: &DatatypeContext,
) -> (r: Pattern)
    ensures
        r@ == text_derivative(
            pattern@,
            text@,
            definitions@,
            registry@,
            context@,
            MAX_DEPTH as nat,
        ),
{
    deriv_text_within(pattern, text, definitions, registry, context, MAX_DEPTH)
}

/// Whether some attribute of the given name can be matched, whatever its value.
pub fn attribute_name_known(pattern: &Pattern, name: &ExpandedName, definitions: &Definitions) -> (r:
    bool)
    ensures
        r == knows_attribute(pattern@, name@, definitions@, MAX_DEPTH as nat),
{
    attribute_name_known_within(pattern, name, definitions, MAX_DEPTH)
}

/// What the content of a child element of the given name must be, where one can be next.
pub fn find_element_contents(
    pattern: &Pattern,
    name: &ExpandedName,
    definitions: &Definitions,
) -> (r: Option<Pattern>)
    ensures
        match r {
            Some(content) => child_content(pattern@, name@, definitions@, MAX_DEPTH as nat)
                == Some(content@),
            None => child_content(pattern@, name@, definitions@, MAX_DEPTH as nat) is None,
        },
{
    find_element_contents_within(pattern, name, definitions, MAX_DEPTH)
}

} // verus!
