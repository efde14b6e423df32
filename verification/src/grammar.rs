//! The abstract syntax of schemas, and the mathematical model of each part of it.
use vstd::prelude::*;

use crate::string_map::{Duplicate, StringMap};
use crate::text::{copy_opt, opt_text, Text};

verus! {

/// A parsed (but not yet composed) schema, as returned by [`crate::parse`]. Pass it
/// to [`crate::simplify`] (or use [`crate::Schema::compile`], which does both steps)
/// to get a [`crate::CompiledSchema`] ready to validate documents against.
#[derive(Debug, PartialEq, Eq)]
pub struct SchemaDocument {
    /// The outermost pattern or grammar.
    pub root: Root,
}

/// The outermost construct of a schema.
#[derive(Debug, PartialEq, Eq)]
pub enum Root {
    /// A single pattern.
    Pattern(Pattern),
    /// A grammar.
    Grammar(Grammar),
}

/// A grammar: a sequence of components.
#[derive(Debug, PartialEq, Eq)]
pub struct Grammar {
    /// Where the grammar stands.
    pub context: Context,
    /// Its components.
    pub items: Vec<GrammarItem>,
}

/// A component of a grammar.
#[derive(Debug, PartialEq, Eq)]
#[allow(inconsistent_fields)]
pub enum GrammarItem {
    /// What a document may start with.
    Start {
        /// How several of these combine.
        combine: Option<Combine>,
        /// The pattern, as a group.
        body: Vec<Pattern>,
    },
    /// A named pattern.
    Define {
        /// The name.
        name: String,
        /// How several of the same name combine.
        combine: Option<Combine>,
        /// The pattern, as a group.
        body: Vec<Pattern>,
    },
    /// Components set apart only for the reader.
    Div(Vec<GrammarItem>),
    /// The components of another grammar, with overrides.
    Include {
        /// Which grammar.
        href: String,
        /// The namespace that the other grammar inherits.
        inherit_namespace: Option<String>,
        /// The overrides.
        body: Vec<GrammarItem>,
        /// Where the reference stands.
        context: Context,
    },
}

/// How several definitions of one name combine.
#[derive(Clone, Copy, Debug, PartialEq, Eq, Structural)]
pub enum Combine {
    /// As alternatives.
    Choice,
    /// Interleaved.
    Interleave,
}

/// A pattern.
#[derive(Debug, PartialEq, Eq)]
#[allow(inconsistent_fields)]
pub enum Pattern {
    /// An element.
    Element {
        /// Its possible names.
        name: NameClass,
        /// Its content, as a group.
        body: Vec<Pattern>,
        /// Where the pattern stands.
        context: Context,
    },
    /// An attribute.
    Attribute {
        /// Its possible names.
        name: NameClass,
        /// Its value, as a group.
        body: Vec<Pattern>,
        /// Where the pattern stands.
        context: Context,
    },
    /// All of them, in order.
    Group(Vec<Pattern>),
    /// All of them, interleaved.
    Interleave(Vec<Pattern>),
    /// One of them.
    Choice(Vec<Pattern>),
    /// The group, or nothing.
    Optional(Vec<Pattern>),
    /// The group, any number of times.
    ZeroOrMore(Vec<Pattern>),
    /// The group, at least once.
    OneOrMore(Vec<Pattern>),
    /// Text whose whitespace-separated tokens match the group.
    List(Vec<Pattern>),
    /// The group, interleaved with text.
    Mixed(Vec<Pattern>),
    /// Nothing.
    Empty,
    /// What never matches.
    NotAllowed,
    /// Any text.
    Text,
    /// A value of a datatype.
    Data {
        /// The type's name.
        datatype: String,
        /// The library that it belongs to.
        datatype_library: Option<String>,
        /// Its parameters.
        params: Vec<Param>,
        /// What is left out.
        except: Vec<Pattern>,
        /// Where the pattern stands.
        context: Context,
    },
    /// One value.
    Value {
        /// The value's text.
        value: String,
        /// The type by which values are compared.
        datatype: Option<String>,
        /// The library that the type belongs to.
        datatype_library: Option<String>,
        /// The default namespace of the value's text.
        namespace: Option<String>,
        /// Where the pattern stands.
        context: Context,
    },
    /// A named pattern of this grammar.
    Ref(String),
    /// A named pattern of the enclosing grammar.
    ParentRef(String),
    /// The pattern that another schema consists of.
    ExternalRef {
        /// Which schema.
        href: String,
        /// The namespace that the other schema inherits.
        inherit_namespace: Option<String>,
        /// Where the reference stands.
        context: Context,
    },
    /// What a grammar starts with.
    Grammar(Grammar),
}

/// A parameter of a datatype.
#[derive(Debug, PartialEq, Eq)]
pub struct Param {
    /// Its name.
    pub name: String,
    /// Its value.
    pub value: String,
    /// Where it stands.
    pub context: Context,
}

/// A class of names.
#[derive(Debug, PartialEq, Eq)]
pub enum NameClass {
    /// One name, as it is written.
    Name {
        /// The name, with or without a prefix.
        lexical: String,
        /// The namespace, where it is given.
        namespace: Option<String>,
        /// Where the name stands.
        context: Context,
    },
    /// Every name.
    Any {
        /// What is left out.
        except: Vec<NameClass>,
        /// Where the name class stands.
        context: Context,
    },
    /// Every name of a namespace.
    Namespace {
        /// The namespace.
        namespace: Option<String>,
        /// What is left out.
        except: Vec<NameClass>,
        /// Where the name class stands.
        context: Context,
    },
    /// The names of any of them.
    Choice(Vec<NameClass>),
}

/// What a pattern or name class inherits from where it stands.
#[derive(Debug, PartialEq, Eq)]
pub struct Context {
    /// What relative references resolve against.
    pub base_uri: String,
    /// The namespace prefixes in scope.
    pub namespaces: StringMap<String>,
    /// The default namespace of the compact syntax.
    pub default_namespace: Option<String>,
    /// The nearest enclosing `datatypeLibrary`, for any `data` or `value` that does
    /// not specify its own.
    pub datatype_library: Option<String>,
    /// The nearest enclosing `ns`, for any `name`, `nsName` or `value` that does not
    /// specify its own. `None` means that none was set, which resolves to the empty
    /// string.
    pub ns: Option<String>,
}

// ---------------------------------------------------------------------
// Models
// ---------------------------------------------------------------------

/// The model of a [`Context`].
#[verifier::ext_equal]
pub struct ContextModel {
    pub base_uri: Text,
    pub namespaces: Seq<(Text, Text)>,
    pub default_namespace: Option<Text>,
    pub datatype_library: Option<Text>,
    pub ns: Option<Text>,
}

/// The model of a [`NameClass`].
#[verifier::ext_equal]
pub enum NameModel {
    Name { lexical: Text, namespace: Option<Text>, context: ContextModel },
    Any { except: Seq<NameModel>, context: ContextModel },
    Namespace { namespace: Option<Text>, except: Seq<NameModel>, context: ContextModel },
    Choice(Seq<NameModel>),
}

/// The model of a [`Param`].
#[verifier::ext_equal]
pub struct ParamModel {
    pub name: Text,
    pub value: Text,
    pub context: ContextModel,
}

/// The model of a [`Pattern`].
#[verifier::ext_equal]
#[allow(inconsistent_fields)]
pub enum PatternModel {
    Element { name: NameModel, body: Seq<PatternModel>, context: ContextModel },
    Attribute { name: NameModel, body: Seq<PatternModel>, context: ContextModel },
    Group(Seq<PatternModel>),
    Interleave(Seq<PatternModel>),
    Choice(Seq<PatternModel>),
    Optional(Seq<PatternModel>),
    ZeroOrMore(Seq<PatternModel>),
    OneOrMore(Seq<PatternModel>),
    List(Seq<PatternModel>),
    Mixed(Seq<PatternModel>),
    Empty,
    NotAllowed,
    Text,
    Data {
        datatype: Text,
        datatype_library: Option<Text>,
        params: Seq<ParamModel>,
        except: Seq<PatternModel>,
        context: ContextModel,
    },
    Value {
        value: Text,
        datatype: Option<Text>,
        datatype_library: Option<Text>,
        namespace: Option<Text>,
        context: ContextModel,
    },
    Ref(Text),
    ParentRef(Text),
    ExternalRef { href: Text, inherit_namespace: Option<Text>, context: ContextModel },
    Grammar(GrammarModel),
}

/// The model of a [`Grammar`].
#[verifier::ext_equal]
pub struct GrammarModel {
    pub context: ContextModel,
    pub items: Seq<ItemModel>,
}

/// The model of a [`GrammarItem`].
#[verifier::ext_equal]
#[allow(inconsistent_fields)]
pub enum ItemModel {
    Start { combine: Option<Combine>, body: Seq<PatternModel> },
    Define { name: Text, combine: Option<Combine>, body: Seq<PatternModel> },
    Div(Seq<ItemModel>),
    Include {
        href: Text,
        inherit_namespace: Option<Text>,
        body: Seq<ItemModel>,
        context: ContextModel,
    },
}

/// The model of a [`Root`].
#[verifier::ext_equal]
pub enum RootModel {
    Pattern(PatternModel),
    Grammar(GrammarModel),
}

impl View for Context {
    type V = ContextModel;

    open spec fn view(&self) -> ContextModel {
        ContextModel {
            base_uri: self.base_uri@,
            namespaces: self.namespaces@,
            default_namespace: opt_text(self.default_namespace),
            datatype_library: opt_text(self.datatype_library),
            ns: opt_text(self.ns),
        }
    }
}

impl View for Param {
    type V = ParamModel;

    open spec fn view(&self) -> ParamModel {
        ParamModel { name: self.name@, value: self.value@, context: self.context@ }
    }
}

/// The models of a sequence of parameters.
pub open spec fn params_of(s: Seq<Param>) -> Seq<ParamModel> {
    Seq::new(s.len(), |i: int| s[i]@)
}

impl NameClass {
    /// The name class's model.
    pub open spec fn model(self) -> NameModel
        decreases self,
    {
        match self {
            NameClass::Name { lexical, namespace, context } => NameModel::Name {
                lexical: lexical@,
                namespace: opt_text(namespace),
                context: context@,
            },
            NameClass::Any { except, context } => NameModel::Any {
                except: Seq::new(
                    except@.len(),
                    |i: int|
                        if 0 <= i < except@.len() {
                            except@[i].model()
                        } else {
                            arbitrary()
                        },
                ),
                context: context@,
            },
            NameClass::Namespace { namespace, except, context } => NameModel::Namespace {
                namespace: opt_text(namespace),
                except: Seq::new(
                    except@.len(),
                    |i: int|
                        if 0 <= i < except@.len() {
                            except@[i].model()
                        } else {
                            arbitrary()
                        },
                ),
                context: context@,
            },
            NameClass::Choice(values) => NameModel::Choice(
                Seq::new(
                    values@.len(),
                    |i: int|
                        if 0 <= i < values@.len() {
                            values@[i].model()
                        } else {
                            arbitrary()
                        },
                ),
            ),
        }
    }

    /// The model, with the parts given by [`names_of`].
    pub proof fn lemma_model(self)
        ensures
            self.model() == (match self {
                NameClass::Name { lexical, namespace, context } => NameModel::Name {
                    lexical: lexical@,
                    namespace: opt_text(namespace),
                    context: context@,
                },
                NameClass::Any { except, context } => NameModel::Any {
                    except: names_of(except@),
                    context: context@,
                },
                NameClass::Namespace { namespace, except, context } => NameModel::Namespace {
                    namespace: opt_text(namespace),
                    except: names_of(except@),
                    context: context@,
                },
                NameClass::Choice(values) => NameModel::Choice(names_of(values@)),
            }),
    {
        match self {
            NameClass::Name { lexical, namespace, context } => {},
            NameClass::Any { except, context } => {
                assert(self.model()->Any_except =~= names_of(except@));
            },
            NameClass::Namespace { namespace, except, context } => {
                assert(self.model()->Namespace_except =~= names_of(except@));
            },
            NameClass::Choice(values) => {
                assert(self.model()->Choice_0 =~= names_of(values@));
            },
        }
    }
}

/// The models of a sequence of name classes.
pub open spec fn names_of(s: Seq<NameClass>) -> Seq<NameModel> {
    Seq::new(s.len(), |i: int| s[i].model())
}

impl View for NameClass {
    type V = NameModel;

    open spec fn view(&self) -> NameModel {
        self.model()
    }
}

impl Pattern {
    /// The pattern's model.
    pub open spec fn model(self) -> PatternModel
        decreases self,
    {
        match self {
            Pattern::Element { name, body, context } => PatternModel::Element {
                name: name@,
                body: Seq::new(
                    body@.len(),
                    |i: int|
                        if 0 <= i < body@.len() {
                            body@[i].model()
                        } else {
                            arbitrary()
                        },
                ),
                context: context@,
            },
            Pattern::Attribute { name, body, context } => PatternModel::Attribute {
                name: name@,
                body: Seq::new(
                    body@.len(),
                    |i: int|
                        if 0 <= i < body@.len() {
                            body@[i].model()
                        } else {
                            arbitrary()
                        },
                ),
                context: context@,
            },
            Pattern::Group(values) => PatternModel::Group(
                Seq::new(
                    values@.len(),
                    |i: int|
                        if 0 <= i < values@.len() {
                            values@[i].model()
                        } else {
                            arbitrary()
                        },
                ),
            ),
            Pattern::Interleave(values) => PatternModel::Interleave(
                Seq::new(
                    values@.len(),
                    |i: int|
                        if 0 <= i < values@.len() {
                            values@[i].model()
                        } else {
                            arbitrary()
                        },
                ),
            ),
            Pattern::Choice(values) => PatternModel::Choice(
                Seq::new(
                    values@.len(),
                    |i: int|
                        if 0 <= i < values@.len() {
                            values@[i].model()
                        } else {
                            arbitrary()
                        },
                ),
            ),
            Pattern::Optional(values) => PatternModel::Optional(
                Seq::new(
                    values@.len(),
                    |i: int|
                        if 0 <= i < values@.len() {
                            values@[i].model()
                        } else {
                            arbitrary()
                        },
                ),
            ),
            Pattern::ZeroOrMore(values) => PatternModel::ZeroOrMore(
                Seq::new(
                    values@.len(),
                    |i: int|
                        if 0 <= i < values@.len() {
                            values@[i].model()
                        } else {
                            arbitrary()
                        },
                ),
            ),
            Pattern::OneOrMore(values) => PatternModel::OneOrMore(
                Seq::new(
                    values@.len(),
                    |i: int|
                        if 0 <= i < values@.len() {
                            values@[i].model()
                        } else {
                            arbitrary()
                        },
                ),
            ),
            Pattern::List(values) => PatternModel::List(
                Seq::new(
                    values@.len(),
                    |i: int|
                        if 0 <= i < values@.len() {
                            values@[i].model()
                        } else {
                            arbitrary()
                        },
                ),
            ),
            Pattern::Mixed(values) => PatternModel::Mixed(
                Seq::new(
                    values@.len(),
                    |i: int|
                        if 0 <= i < values@.len() {
                            values@[i].model()
                        } else {
                            arbitrary()
                        },
                ),
            ),
            Pattern::Empty => PatternModel::Empty,
            Pattern::NotAllowed => PatternModel::NotAllowed,
            Pattern::Text => PatternModel::Text,
            Pattern::Data { datatype, datatype_library, params, except, context } =>
                PatternModel::Data {
                datatype: datatype@,
                datatype_library: opt_text(datatype_library),
                params: params_of(params@),
                except: Seq::new(
                    except@.len(),
                    |i: int|
                        if 0 <= i < except@.len() {
                            except@[i].model()
                        } else {
                            arbitrary()
                        },
                ),
                context: context@,
            },
            Pattern::Value { value, datatype, datatype_library, namespace, context } =>
                PatternModel::Value {
                value: value@,
                datatype: opt_text(datatype),
                datatype_library: opt_text(datatype_library),
                namespace: opt_text(namespace),
                context: context@,
            },
            Pattern::Ref(name) => PatternModel::Ref(name@),
            Pattern::ParentRef(name) => PatternModel::ParentRef(name@),
            Pattern::ExternalRef { href, inherit_namespace, context } =>
                PatternModel::ExternalRef {
                href: href@,
                inherit_namespace: opt_text(inherit_namespace),
                context: context@,
            },
            Pattern::Grammar(grammar) => PatternModel::Grammar(grammar.model()),
        }
    }

    /// The model, with the parts given by [`patterns_of`].
    pub proof fn lemma_model(self)
        ensures
            self.model() == (match self {
                Pattern::Element { name, body, context } => PatternModel::Element {
                    name: name@,
                    body: patterns_of(body@),
                    context: context@,
                },
                Pattern::Attribute { name, body, context } => PatternModel::Attribute {
                    name: name@,
                    body: patterns_of(body@),
                    context: context@,
                },
                Pattern::Group(values) => PatternModel::Group(patterns_of(values@)),
                Pattern::Interleave(values) => PatternModel::Interleave(patterns_of(values@)),
                Pattern::Choice(values) => PatternModel::Choice(patterns_of(values@)),
                Pattern::Optional(values) => PatternModel::Optional(patterns_of(values@)),
                Pattern::ZeroOrMore(values) => PatternModel::ZeroOrMore(patterns_of(values@)),
                Pattern::OneOrMore(values) => PatternModel::OneOrMore(patterns_of(values@)),
                Pattern::List(values) => PatternModel::List(patterns_of(values@)),
                Pattern::Mixed(values) => PatternModel::Mixed(patterns_of(values@)),
                Pattern::Empty => PatternModel::Empty,
                Pattern::NotAllowed => PatternModel::NotAllowed,
                Pattern::Text => PatternModel::Text,
                Pattern::Data { datatype, datatype_library, params, except, context } =>
                    PatternModel::Data {
                    datatype: datatype@,
                    datatype_library: opt_text(datatype_library),
                    params: params_of(params@),
                    except: patterns_of(except@),
                    context: context@,
                },
                Pattern::Value { value, datatype, datatype_library, namespace, context } =>
                    PatternModel::Value {
                    value: value@,
                    datatype: opt_text(datatype),
                    datatype_library: opt_text(datatype_library),
                    namespace: opt_text(namespace),
                    context: context@,
                },
                Pattern::Ref(name) => PatternModel::Ref(name@),
                Pattern::ParentRef(name) => PatternModel::ParentRef(name@),
                Pattern::ExternalRef { href, inherit_namespace, context } =>
                    PatternModel::ExternalRef {
                    href: href@,
                    inherit_namespace: opt_text(inherit_namespace),
                    context: context@,
                },
                Pattern::Grammar(grammar) => PatternModel::Grammar(grammar@),
            }),
    {
        match self {
            Pattern::Element { name, body, context } => {
                assert(self.model()->Element_body =~= patterns_of(body@));
            },
            Pattern::Attribute { name, body, context } => {
                assert(self.model()->Attribute_body =~= patterns_of(body@));
            },
            Pattern::Group(values) => {
                assert(self.model()->Group_0 =~= patterns_of(values@));
            },
            Pattern::Interleave(values) => {
                assert(self.model()->Interleave_0 =~= patterns_of(values@));
            },
            Pattern::Choice(values) => {
                assert(self.model()->Choice_0 =~= patterns_of(values@));
            },
            Pattern::Optional(values) => {
                assert(self.model()->Optional_0 =~= patterns_of(values@));
            },
            Pattern::ZeroOrMore(values) => {
                assert(self.model()->ZeroOrMore_0 =~= patterns_of(values@));
            },
            Pattern::OneOrMore(values) => {
                assert(self.model()->OneOrMore_0 =~= patterns_of(values@));
            },
            Pattern::List(values) => {
                assert(self.model()->List_0 =~= patterns_of(values@));
            },
            Pattern::Mixed(values) => {
                assert(self.model()->Mixed_0 =~= patterns_of(values@));
            },
            Pattern::Data { datatype, datatype_library, params, except, context } => {
                assert(self.model()->Data_except =~= patterns_of(except@));
            },
            _ => {},
        }
    }
}

/// The models of a sequence of patterns.
pub open spec fn patterns_of(s: Seq<Pattern>) -> Seq<PatternModel> {
    Seq::new(s.len(), |i: int| s[i].model())
}

impl View for Pattern {
    type V = PatternModel;

    open spec fn view(&self) -> PatternModel {
        self.model()
    }
}

impl Grammar {
    /// The grammar's model.
    pub open spec fn model(self) -> GrammarModel
        decreases self,
    {
        GrammarModel {
            context: self.context@,
            items: Seq::new(
                self.items@.len(),
                |i: int|
                    if 0 <= i < self.items@.len() {
                        self.items@[i].model()
                    } else {
                        arbitrary()
                    },
            ),
        }
    }

    /// The model, with the parts given by [`items_of`].
    pub proof fn lemma_model(self)
        ensures
            self.model() == (GrammarModel {
                context: self.context@,
                items: items_of(self.items@),
            }),
    {
        assert(self.model().items =~= items_of(self.items@));
    }
}

impl View for Grammar {
    type V = GrammarModel;

    open spec fn view(&self) -> GrammarModel {
        self.model()
    }
}

impl GrammarItem {
    /// The component's model.
    pub open spec fn model(self) -> ItemModel
        decreases self,
    {
        match self {
            GrammarItem::Start { combine, body } => ItemModel::Start {
                combine,
                body: Seq::new(
                    body@.len(),
                    |i: int|
                        if 0 <= i < body@.len() {
                            body@[i].model()
                        } else {
                            arbitrary()
                        },
                ),
            },
            GrammarItem::Define { name, combine, body } => ItemModel::Define {
                name: name@,
                combine,
                body: Seq::new(
                    body@.len(),
                    |i: int|
                        if 0 <= i < body@.len() {
                            body@[i].model()
                        } else {
                            arbitrary()
                        },
                ),
            },
            GrammarItem::Div(items) => ItemModel::Div(
                Seq::new(
                    items@.len(),
                    |i: int|
                        if 0 <= i < items@.len() {
                            items@[i].model()
                        } else {
                            arbitrary()
                        },
                ),
            ),
            GrammarItem::Include { href, inherit_namespace, body, context } => ItemModel::Include {
                href: href@,
                inherit_namespace: opt_text(inherit_namespace),
                body: Seq::new(
                    body@.len(),
                    |i: int|
                        if 0 <= i < body@.len() {
                            body@[i].model()
                        } else {
                            arbitrary()
                        },
                ),
                context: context@,
            },
        }
    }

    /// The model, with the parts given by [`items_of`] and [`patterns_of`].
    pub proof fn lemma_model(self)
        ensures
            self.model() == (match self {
                GrammarItem::Start { combine, body } => ItemModel::Start {
                    combine,
                    body: patterns_of(body@),
                },
                GrammarItem::Define { name, combine, body } => ItemModel::Define {
                    name: name@,
                    combine,
                    body: patterns_of(body@),
                },
                GrammarItem::Div(items) => ItemModel::Div(items_of(items@)),
                GrammarItem::Include { href, inherit_namespace, body, context } =>
                    ItemModel::Include {
                    href: href@,
                    inherit_namespace: opt_text(inherit_namespace),
                    body: items_of(body@),
                    context: context@,
                },
            }),
    {
        match self {
            GrammarItem::Start { combine, body } => {
                assert(self.model()->Start_body =~= patterns_of(body@));
            },
            GrammarItem::Define { name, combine, body } => {
                assert(self.model()->Define_body =~= patterns_of(body@));
            },
            GrammarItem::Div(items) => {
                assert(self.model()->Div_0 =~= items_of(items@));
            },
            GrammarItem::Include { href, inherit_namespace, body, context } => {
                assert(self.model()->Include_body =~= items_of(body@));
            },
        }
    }
}

/// The models of a sequence of grammar components.
pub open spec fn items_of(s: Seq<GrammarItem>) -> Seq<ItemModel> {
    Seq::new(s.len(), |i: int| s[i].model())
}

impl View for GrammarItem {
    type V = ItemModel;

    open spec fn view(&self) -> ItemModel {
        self.model()
    }
}

impl View for Root {
    type V = RootModel;

    open spec fn view(&self) -> RootModel {
        match self {
            Root::Pattern(pattern) => RootModel::Pattern(pattern@),
            Root::Grammar(grammar) => RootModel::Grammar(grammar@),
        }
    }
}

impl View for SchemaDocument {
    type V = RootModel;

    open spec fn view(&self) -> RootModel {
        self.root@
    }
}

// ---------------------------------------------------------------------
// Copies
// ---------------------------------------------------------------------

impl Duplicate for Context {
    fn duplicate(&self) -> (r: Self) {
        Context {
            base_uri: self.base_uri.clone(),
            namespaces: self.namespaces.duplicate(),
            default_namespace: copy_opt(&self.default_namespace),
            datatype_library: copy_opt(&self.datatype_library),
            ns: copy_opt(&self.ns),
        }
    }
}

/// A copy of parameters.
pub fn copy_params(params: &Vec<Param>) -> (r: Vec<Param>)
    ensures
        params_of(r@) == params_of(params@),
{
    let mut out: Vec<Param> = Vec::new();
    let mut i: usize = 0;
    while i < params.len()
        invariant
            i <= params.len(),
            params_of(out@) == params_of(params@).take(i as int),
        decreases params.len() - i,
    {
        let param = &params[i];
        let copy = Param {
            name: param.name.clone(),
            value: param.value.clone(),
            context: param.context.duplicate(),
        };
        let ghost before = params_of(out@);
        out.push(copy);
        i += 1;
        assert(params_of(out@) =~= before.push(copy@));
        assert(params_of(out@) =~= params_of(params@).take(i as int));
    }
    assert(params_of(out@) =~= params_of(params@));
    out
}

/// A copy of a name class.
pub fn copy_name(name: &NameClass) -> (r: NameClass)
    ensures
        r@ == name@,
    decreases name,
{
    let r = match name {
        NameClass::Name { lexical, namespace, context } => NameClass::Name {
            lexical: lexical.clone(),
            namespace: copy_opt(namespace),
            context: context.duplicate(),
        },
        NameClass::Any { except, context } => NameClass::Any {
            except: copy_names(except),
            context: context.duplicate(),
        },
        NameClass::Namespace { namespace, except, context } => NameClass::Namespace {
            namespace: copy_opt(namespace),
            except: copy_names(except),
            context: context.duplicate(),
        },
        NameClass::Choice(values) => NameClass::Choice(copy_names(values)),
    };
    proof {
        name.lemma_model();
        r.lemma_model();
    }
    r
}

/// A copy of name classes.
pub fn copy_names(names: &Vec<NameClass>) -> (r: Vec<NameClass>)
    ensures
        names_of(r@) == names_of(names@),
    decreases names,
{
    let mut out: Vec<NameClass> = Vec::new();
    let mut i: usize = 0;
    while i < names.len()
        invariant
            i <= names.len(),
            names_of(out@) == names_of(names@).take(i as int),
        decreases names.len() - i,
    {
        let copy = copy_name(&names[i]);
        let ghost before = names_of(out@);
        out.push(copy);
        i += 1;
        assert(names_of(out@) =~= before.push(copy@));
        assert(names_of(out@) =~= names_of(names@).take(i as int));
    }
    assert(names_of(out@) =~= names_of(names@));
    out
}

/// A copy of a pattern.
pub fn copy_pattern(pattern: &Pattern) -> (r: Pattern)
    ensures
        r@ == pattern@,
    decreases pattern,
{
    let r = match pattern {
        Pattern::Element { name, body, context } => Pattern::Element {
            name: copy_name(name),
            body: copy_patterns(body),
            context: context.duplicate(),
        },
        Pattern::Attribute { name, body, context } => Pattern::Attribute {
            name: copy_name(name),
            body: copy_patterns(body),
            context: context.duplicate(),
        },
        Pattern::Group(values) => Pattern::Group(copy_patterns(values)),
        Pattern::Interleave(values) => Pattern::Interleave(copy_patterns(values)),
        Pattern::Choice(values) => Pattern::Choice(copy_patterns(values)),
        Pattern::Optional(values) => Pattern::Optional(copy_patterns(values)),
        Pattern::ZeroOrMore(values) => Pattern::ZeroOrMore(copy_patterns(values)),
        Pattern::OneOrMore(values) => Pattern::OneOrMore(copy_patterns(values)),
        Pattern::List(values) => Pattern::List(copy_patterns(values)),
        Pattern::Mixed(values) => Pattern::Mixed(copy_patterns(values)),
        Pattern::Empty => Pattern::Empty,
        Pattern::NotAllowed => Pattern::NotAllowed,
        Pattern::Text => Pattern::Text,
        Pattern::Data { datatype, datatype_library, params, except, context } => Pattern::Data {
            datatype: datatype.clone(),
            datatype_library: copy_opt(datatype_library),
            params: copy_params(params),
            except: copy_patterns(except),
            context: context.duplicate(),
        },
        Pattern::Value { value, datatype, datatype_library, namespace, context } =>
            Pattern::Value {
            value: value.clone(),
            datatype: copy_opt(datatype),
            datatype_library: copy_opt(datatype_library),
            namespace: copy_opt(namespace),
            context: context.duplicate(),
        },
        Pattern::Ref(name) => Pattern::Ref(name.clone()),
        Pattern::ParentRef(name) => Pattern::ParentRef(name.clone()),
        Pattern::ExternalRef { href, inherit_namespace, context } => Pattern::ExternalRef {
            href: href.clone(),
            inherit_namespace: copy_opt(inherit_namespace),
            context: context.duplicate(),
        },
        Pattern::Grammar(grammar) => Pattern::Grammar(copy_grammar(grammar)),
    };
    proof {
        pattern.lemma_model();
        r.lemma_model();
    }
    r
}

/// A copy of patterns.
pub fn copy_patterns(patterns: &Vec<Pattern>) -> (r: Vec<Pattern>)
    ensures
        patterns_of(r@) == patterns_of(patterns@),
    decreases patterns,
{
    let mut out: Vec<Pattern> = Vec::new();
    let mut i: usize = 0;
    while i < patterns.len()
        invariant
            i <= patterns.len(),
            patterns_of(out@) == patterns_of(patterns@).take(i as int),
        decreases patterns.len() - i,
    {
        let copy = copy_pattern(&patterns[i]);
        let ghost before = patterns_of(out@);
        out.push(copy);
        i += 1;
        assert(patterns_of(out@) =~= before.push(copy@));
        assert(patterns_of(out@) =~= patterns_of(patterns@).take(i as int));
    }
    assert(patterns_of(out@) =~= patterns_of(patterns@));
    out
}

/// A copy of a grammar.
pub fn copy_grammar(grammar: &Grammar) -> (r: Grammar)
    ensures
        r@ == grammar@,
    decreases grammar,
{
    let r = Grammar { context: grammar.context.duplicate(), items: copy_items(&grammar.items) };
    proof {
        grammar.lemma_model();
        r.lemma_model();
    }
    r
}

/// A copy of a grammar component.
pub fn copy_item(item: &GrammarItem) -> (r: GrammarItem)
    ensures
        r@ == item@,
    decreases item,
{
    let r = match item {
        GrammarItem::Start { combine, body } => GrammarItem::Start {
            combine: *combine,
            body: copy_patterns(body),
        },
        GrammarItem::Define { name, combine, body } => GrammarItem::Define {
            name: name.clone(),
            combine: *combine,
            body: copy_patterns(body),
        },
        GrammarItem::Div(items) => GrammarItem::Div(copy_items(items)),
        GrammarItem::Include { href, inherit_namespace, body, context } => GrammarItem::Include {
            href: href.clone(),
            inherit_namespace: copy_opt(inherit_namespace),
            body: copy_items(body),
            context: context.duplicate(),
        },
    };
    proof {
        item.lemma_model();
        r.lemma_model();
    }
    r
}

/// A copy of grammar components.
pub fn copy_items(items: &Vec<GrammarItem>) -> (r: Vec<GrammarItem>)
    ensures
        items_of(r@) == items_of(items@),
    decreases items,
{
    let mut out: Vec<GrammarItem> = Vec::new();
    let mut i: usize = 0;
    while i < items.len()
        invariant
            i <= items.len(),
            items_of(out@) == items_of(items@).take(i as int),
        decreases items.len() - i,
    {
        let copy = copy_item(&items[i]);
        let ghost before = items_of(out@);
        out.push(copy);
        i += 1;
        assert(items_of(out@) =~= before.push(copy@));
        assert(items_of(out@) =~= items_of(items@).take(i as int));
    }
    assert(items_of(out@) =~= items_of(items@));
    out
}

impl Duplicate for Pattern {
    fn duplicate(&self) -> (r: Self) {
        copy_pattern(self)
    }
}

impl Clone for Context {
    fn clone(&self) -> (r: Self)
        ensures
            r@ == self@,
    {
        self.duplicate()
    }
}

impl Clone for Param {
    fn clone(&self) -> (r: Self)
        ensures
            r@ == self@,
    {
        Param {
            name: self.name.clone(),
            value: self.value.clone(),
            context: self.context.duplicate(),
        }
    }
}

impl Clone for NameClass {
    fn clone(&self) -> (r: Self)
        ensures
            r@ == self@,
    {
        copy_name(self)
    }
}

impl Clone for Pattern {
    fn clone(&self) -> (r: Self)
        ensures
            r@ == self@,
    {
        copy_pattern(self)
    }
}

impl Clone for Grammar {
    fn clone(&self) -> (r: Self)
        ensures
            r@ == self@,
    {
        copy_grammar(self)
    }
}

impl Clone for GrammarItem {
    fn clone(&self) -> (r: Self)
        ensures
            r@ == self@,
    {
        copy_item(self)
    }
}

impl Clone for Root {
    fn clone(&self) -> (r: Self)
        ensures
            r@ == self@,
    {
        match self {
            Root::Pattern(pattern) => Root::Pattern(copy_pattern(pattern)),
            Root::Grammar(grammar) => Root::Grammar(copy_grammar(grammar)),
        }
    }
}

impl Clone for SchemaDocument {
    fn clone(&self) -> (r: Self)
        ensures
            r@ == self@,
    {
        SchemaDocument { root: self.root.clone() }
    }
}

} // verus!
