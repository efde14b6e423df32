//! Schemas as the XML syntax writes them: reading the element that a pattern is written as
//! gives the pattern back.
use vstd::prelude::*;

use crate::combining::law_composed_forms_keep_meaning;
use crate::compact::{read_level, read_schema, token_at};
use crate::compact_writing::{
    at, ends, grammar_tokens, grammar_writable, law_braced_grammars_are_read_back, lemma_occurs,
    lemma_split, prefixed, term, tokens, writable, Spelling,
};
use crate::compose::{all_simple, operands, simple, PlaceModel, StateModel};
use crate::grammar::{
    Combine, ContextModel, GrammarModel, ItemModel, NameModel, ParamModel, PatternModel, RootModel,
};
use crate::lexer::TokenModel;
use crate::matching::{meets, nothing, Given, Setting};
use crate::string_map::{has_key, inserted, lemma_inserted_lookup, lookup};
use crate::syntax::ncname;
use crate::text::{or_empty, trim, Text};
use crate::xml_syntax::{
    attribute_value, children_problem, combine_of, context_at, declared_default, declared_prefixes,
    in_rng, leaf_problem, named_class, next_except, next_rng, plain_attribute, required_name,
    text_problem, token_attribute_of, unknown_attribute, unknown_attributes, xml_container,
    xml_data, xml_except_names, xml_except_patterns, xml_grammar_of, xml_item_of, xml_items_in,
    xml_name_class_of, xml_named, xml_names_in, xml_param, xml_params_in, xml_pattern_of,
    xml_patterns_in, xml_root, xml_value, RNG_NAMESPACE, XML_NAMESPACE,
};
use crate::xml_tree::{AttributeModel, XmlModel};

verus! {

/// How names are spelled, and the namespace declarations in force.
pub struct Markup {
    pub name: spec_fn(Text, Option<Text>, bool) -> Text,
    pub namespaces: Seq<(Option<Text>, Text)>,
}

/// An attribute without a namespace.
pub open spec fn set_to(name: Text, value: Text) -> AttributeModel {
    AttributeModel { namespace: None, name, value }
}

/// An element of a schema.
pub open spec fn tagged(
    name: Text,
    attributes: Seq<AttributeModel>,
    text: Option<Text>,
    children: Seq<XmlModel>,
    mk: Markup,
) -> XmlModel {
    XmlModel {
        namespace: Some(RNG_NAMESPACE@),
        name,
        attributes,
        namespaces: mk.namespaces,
        text,
        children,
    }
}

/// Whether a context is the one of elements with the namespace declarations: it has their
/// default namespace, and their prefixes and `xml`.
pub open spec fn declared_by(ctx: ContextModel, mk: Markup) -> bool {
    let prefixes = declared_prefixes(mk.namespaces, mk.namespaces.len());
    ctx.default_namespace == declared_default(mk.namespaces, mk.namespaces.len()) && ctx.namespaces
        == (if has_key(prefixes, "xml"@) {
        prefixes
    } else {
        inserted(prefixes, "xml"@, XML_NAMESPACE@)
    })
}

/// The context with a namespace in force, where one is given.
pub open spec fn with_ns(ctx: ContextModel, ns: Option<Text>) -> ContextModel {
    match ns {
        Some(uri) => ContextModel { ns: Some(uri), ..ctx },
        None => ctx,
    }
}

/// What tells the words of schemas apart: the length and the first letter.
proof fn lemma_words()
    ensures
        "element"@.len() == 7 && "element"@[0] == 'e',
        "attribute"@.len() == 9 && "attribute"@[0] == 'a',
        "group"@.len() == 5 && "group"@[0] == 'g',
        "interleave"@.len() == 10 && "interleave"@[0] == 'i',
        "choice"@.len() == 6 && "choice"@[0] == 'c',
        "optional"@.len() == 8,
        "zeroOrMore"@.len() == 10 && "zeroOrMore"@[0] == 'z',
        "oneOrMore"@.len() == 9 && "oneOrMore"@[0] == 'o',
        "list"@.len() == 4 && "list"@[0] == 'l',
        "mixed"@.len() == 5 && "mixed"@[0] == 'm',
        "empty"@.len() == 5 && "empty"@[0] == 'e',
        "notAllowed"@.len() == 10 && "notAllowed"@[0] == 'n',
        "text"@.len() == 4 && "text"@[0] == 't',
        "ref"@.len() == 3,
        "parentRef"@.len() == 9 && "parentRef"@[0] == 'p',
        "externalRef"@.len() == 11,
        "grammar"@.len() == 7 && "grammar"@[0] == 'g',
        "data"@.len() == 4 && "data"@[0] == 'd',
        "value"@.len() == 5 && "value"@[0] == 'v',
{
    reveal_strlit("element");
    reveal_strlit("attribute");
    reveal_strlit("group");
    reveal_strlit("interleave");
    reveal_strlit("choice");
    reveal_strlit("optional");
    reveal_strlit("zeroOrMore");
    reveal_strlit("oneOrMore");
    reveal_strlit("list");
    reveal_strlit("mixed");
    reveal_strlit("empty");
    reveal_strlit("notAllowed");
    reveal_strlit("text");
    reveal_strlit("ref");
    reveal_strlit("parentRef");
    reveal_strlit("externalRef");
    reveal_strlit("grammar");
    reveal_strlit("data");
    reveal_strlit("value");
}

/// What tells the other words of schemas apart.
proof fn lemma_other_words()
    ensures
        "name"@.len() == 4,
        "anyName"@.len() == 7,
        "nsName"@.len() == 6 && "nsName"@[0] == 'n',
        "choice"@.len() == 6 && "choice"@[0] == 'c',
        "interleave"@.len() == 10,
        "except"@.len() == 6 && "except"@[0] == 'e',
        "param"@.len() == 5,
        "start"@.len() == 5,
        "define"@.len() == 6,
        "div"@.len() == 3,
        "include"@.len() == 7 && "include"@[0] == 'i',
        "combine"@.len() == 7 && "combine"@[0] == 'c',
        "type"@.len() == 4 && "type"@[0] == 't',
        "href"@.len() == 4 && "href"@[0] == 'h',
        "name"@[0] == 'n',
        "ns"@.len() == 2,
        "datatypeLibrary"@.len() == 15,
        "base"@.len() == 4 && "base"@[0] == 'b',
{
    reveal_strlit("name");
    reveal_strlit("anyName");
    reveal_strlit("nsName");
    reveal_strlit("choice");
    reveal_strlit("interleave");
    reveal_strlit("except");
    reveal_strlit("param");
    reveal_strlit("start");
    reveal_strlit("define");
    reveal_strlit("div");
    reveal_strlit("include");
    reveal_strlit("combine");
    reveal_strlit("type");
    reveal_strlit("href");
    reveal_strlit("ns");
    reveal_strlit("datatypeLibrary");
    reveal_strlit("base");
}

// ---------------------------------------------------------------------
// Attributes
// ---------------------------------------------------------------------

/// An element without attributes has none by any name, and none that may not stand there.
proof fn lemma_no_attributes(e: XmlModel, allowed: Seq<Text>)
    requires
        e.attributes.len() == 0,
    ensures
        forall|name: Text| #[trigger] plain_attribute(e, name) is None,
        forall|name: Text| #[trigger] token_attribute_of(e, name) is None,
        attribute_value(
            e.attributes,
            Some(XML_NAMESPACE@),
            "base"@,
            e.attributes.len(),
        ) is None,
        unknown_attributes(e, allowed) is None,
{
}

/// An element with one attribute has that one and no other.
proof fn lemma_one_attribute(e: XmlModel, a: Text, value: Text, allowed: Seq<Text>)
    requires
        e.attributes == seq![set_to(a, value)],
    ensures
        plain_attribute(e, a) == Some(value),
        forall|name: Text| name != a ==> #[trigger] plain_attribute(e, name) is None,
        token_attribute_of(e, a) == Some(trim(value)),
        forall|name: Text| name != a ==> #[trigger] token_attribute_of(e, name) is None,
        attribute_value(
            e.attributes,
            Some(XML_NAMESPACE@),
            "base"@,
            e.attributes.len(),
        ) is None,
        allowed.contains(a) || a == "ns"@ ==> unknown_attributes(e, allowed) is None,
{
    reveal_with_fuel(attribute_value, 2);
    reveal_with_fuel(unknown_attribute, 2);
    assert(e.attributes.len() == 1);
    assert forall|name: Text| name != a implies #[trigger] plain_attribute(e, name) is None by {}
    assert forall|name: Text| name != a implies #[trigger] token_attribute_of(e, name) is None by {
        assert(plain_attribute(e, name) is None);
    }
}

/// An element with two attributes has those and no other.
proof fn lemma_two_attributes(
    e: XmlModel,
    a: Text,
    value: Text,
    b: Text,
    other: Text,
    allowed: Seq<Text>,
)
    requires
        e.attributes == seq![set_to(a, value), set_to(b, other)],
        a != b,
    ensures
        plain_attribute(e, a) == Some(value),
        plain_attribute(e, b) == Some(other),
        forall|name: Text|
            name != a && name != b ==> #[trigger] plain_attribute(e, name) is None,
        token_attribute_of(e, a) == Some(trim(value)),
        token_attribute_of(e, b) == Some(trim(other)),
        forall|name: Text|
            name != a && name != b ==> #[trigger] token_attribute_of(e, name) is None,
        attribute_value(
            e.attributes,
            Some(XML_NAMESPACE@),
            "base"@,
            e.attributes.len(),
        ) is None,
        (allowed.contains(a) || a == "ns"@) && (allowed.contains(b) || b == "ns"@)
            ==> unknown_attributes(e, allowed) is None,
{
    reveal_with_fuel(attribute_value, 3);
    reveal_with_fuel(unknown_attribute, 3);
    assert(e.attributes.len() == 2);
    assert(e.attributes[0] == set_to(a, value));
    assert(e.attributes[1] == set_to(b, other));
    assert forall|name: Text| name != a && name != b implies #[trigger] plain_attribute(
        e,
        name,
    ) is None by {}
    assert forall|name: Text| name != a && name != b implies #[trigger] token_attribute_of(
        e,
        name,
    ) is None by {
        assert(plain_attribute(e, name) is None);
    }
}

/// An element that gives no library, no base and the given namespace, if any, has the context
/// around it with that namespace.
proof fn lemma_context(e: XmlModel, ctx: ContextModel, ns: Option<Text>, mk: Markup)
    requires
        declared_by(ctx, mk),
        e.namespaces == mk.namespaces,
        token_attribute_of(e, "datatypeLibrary"@) is None,
        attribute_value(
            e.attributes,
            Some(XML_NAMESPACE@),
            "base"@,
            e.attributes.len(),
        ) is None,
        token_attribute_of(e, "ns"@) == ns,
    ensures
        context_at(e, ctx) == Ok::<ContextModel, Text>(with_ns(ctx, ns)),
        declared_by(with_ns(ctx, ns), mk),
{
}

// ---------------------------------------------------------------------
// Name classes
// ---------------------------------------------------------------------

/// Whether a word spells a name where a name without a prefix has the given namespace.
pub open spec fn spells(
    w: Text,
    local: Text,
    namespace: Option<Text>,
    unprefixed: Option<Text>,
    ctx: ContextModel,
) -> bool {
    ncname(local) && trim(w) == w && (w == local && !w.contains(':') && namespace == Some(
        or_empty(unprefixed),
    ) || namespace is Some && prefixed(w, local, namespace->0, ctx))
}

/// A name class as it is written.
pub open spec fn name_element(n: NameModel, mk: Markup) -> XmlModel
    decreases n, 0nat,
{
    match n {
        NameModel::Name { lexical, namespace, context } => tagged(
            "name"@,
            Seq::empty(),
            Some((mk.name)(lexical, namespace, false)),
            Seq::empty(),
            mk,
        ),
        NameModel::Any { except, context } => tagged(
            "anyName"@,
            Seq::empty(),
            None,
            except_elements(except, mk),
            mk,
        ),
        NameModel::Namespace { namespace, except, context } => tagged(
            "nsName"@,
            seq![set_to("ns"@, namespace->0)],
            None,
            except_elements(except, mk),
            mk,
        ),
        NameModel::Choice(options) => tagged(
            "choice"@,
            Seq::empty(),
            None,
            name_elements(options, mk, options.len()),
            mk,
        ),
    }
}

/// The first `k` of some name classes as they are written.
pub open spec fn name_elements(names: Seq<NameModel>, mk: Markup, k: nat) -> Seq<XmlModel>
    decreases names, k,
{
    if k == 0 || k > names.len() {
        Seq::empty()
    } else {
        name_elements(names, mk, (k - 1) as nat).push(name_element(names[k - 1], mk))
    }
}

/// The exceptions of a wildcard, where there are any.
pub open spec fn except_elements(names: Seq<NameModel>, mk: Markup) -> Seq<XmlModel>
    decreases names, names.len() + 1,
{
    if names.len() == 0 {
        Seq::empty()
    } else {
        seq![
            tagged("except"@, Seq::empty(), None, name_elements(names, mk, names.len()), mk),
        ]
    }
}

/// Whether a name class can be written in a context.
pub open spec fn name_fits(n: NameModel, ctx: ContextModel, mk: Markup) -> bool
    decreases n,
{
    match n {
        NameModel::Name { lexical, namespace, context } => context == ctx && spells(
            (mk.name)(lexical, namespace, false),
            lexical,
            namespace,
            ctx.ns,
            ctx,
        ),
        NameModel::Any { except, context } => context == ctx && names_fit(except, ctx, mk),
        NameModel::Namespace { namespace, except, context } => namespace is Some && trim(
            namespace->0,
        ) == namespace->0 && context == with_ns(ctx, namespace) && names_fit(except, context, mk),
        NameModel::Choice(options) => options.len() > 0 && names_fit(options, ctx, mk),
    }
}

/// Whether each of some name classes can be written.
pub open spec fn names_fit(names: Seq<NameModel>, ctx: ContextModel, mk: Markup) -> bool
    decreases names,
{
    forall|i: int| 0 <= i < names.len() ==> name_fits(#[trigger] names[i], ctx, mk)
}

/// The context that a name class is read in.
pub open spec fn name_context(n: NameModel, ctx: ContextModel) -> ContextModel {
    match n {
        NameModel::Namespace { namespace, except, context } => with_ns(ctx, namespace),
        _ => ctx,
    }
}

/// A name that a word spells is read from it.
proof fn lemma_spells(
    w: Text,
    local: Text,
    namespace: Option<Text>,
    unprefixed: Option<Text>,
    ctx: ContextModel,
)
    requires
        spells(w, local, namespace, unprefixed, ctx),
    ensures
        named_class(w, None, unprefixed, ctx) == Ok::<NameModel, Text>(
            NameModel::Name { lexical: local, namespace, context: ctx },
        ),
{
    lemma_occurs(w, ':');
    if w == local && !w.contains(':') && namespace == Some(or_empty(unprefixed)) {
    } else {
        let prefix = choose|prefix: Text|
            w == #[trigger] (prefix + seq![':'] + local) && !prefix.contains(':')
                && lookup(ctx.namespaces, prefix) == Some(namespace->0);
        lemma_split(prefix, local);
    }
}

/// The elements of name classes, each at its place.
proof fn lemma_name_elements(names: Seq<NameModel>, mk: Markup, k: nat)
    requires
        k <= names.len(),
    ensures
        name_elements(names, mk, k).len() == k,
        forall|i: int|
            0 <= i < k ==> #[trigger] name_elements(names, mk, k)[i] == name_element(names[i], mk),
    decreases k,
{
    if k > 0 {
        lemma_name_elements(names, mk, (k - 1) as nat);
    }
}

/// A name class is read from the element that it is written as.
proof fn lemma_name_read(n: NameModel, ctx: ContextModel, mk: Markup)
    requires
        declared_by(ctx, mk),
        name_fits(n, ctx, mk),
    ensures
        in_rng(name_element(n, mk)),
        context_at(name_element(n, mk), ctx) == Ok::<ContextModel, Text>(name_context(n, ctx)),
        xml_name_class_of(name_element(n, mk), name_context(n, ctx)) == Ok::<NameModel, Text>(n),
    decreases n, 0nat,
{
    lemma_other_words();
    let e = name_element(n, mk);
    match n {
        NameModel::Name { lexical, namespace, context } => {
            lemma_no_attributes(e, Seq::empty());
            lemma_context(e, ctx, None, mk);
            lemma_spells(
                (mk.name)(lexical, namespace, false),
                lexical,
                namespace,
                ctx.ns,
                ctx,
            );
            assert(text_problem(e, Seq::empty()) is None);
        },
        NameModel::Any { except, context } => {
            lemma_no_attributes(e, Seq::empty());
            lemma_context(e, ctx, None, mk);
            lemma_except_read(except, e.name, ctx, mk);
        },
        NameModel::Namespace { namespace, except, context } => {
            let uri = namespace->0;
            assert(seq!["ns"@][0] == "ns"@);
            lemma_one_attribute(e, "ns"@, uri, seq!["ns"@]);
            lemma_context(e, ctx, Some(uri), mk);
            lemma_except_read(except, e.name, context, mk);
        },
        NameModel::Choice(options) => {
            lemma_no_attributes(e, Seq::empty());
            lemma_context(e, ctx, None, mk);
            lemma_names_read(options, ctx, mk, options.len());
            lemma_name_elements(options, mk, options.len());
            lemma_name_read(options[0], ctx, mk);
            assert(e.children[0] == name_element(options[0], mk));
            assert(children_problem(e, Seq::empty()) is None);
            assert(options.take(options.len() as int) =~= options);
        },
    }
}

/// Name classes are read from the elements that they are written as.
proof fn lemma_names_read(names: Seq<NameModel>, ctx: ContextModel, mk: Markup, k: nat)
    requires
        declared_by(ctx, mk),
        names_fit(names, ctx, mk),
        k <= names.len(),
    ensures
        xml_names_in(name_elements(names, mk, names.len()), ctx, k) == Ok::<Seq<NameModel>, Text>(
            names.take(k as int),
        ),
    decreases names, k,
{
    lemma_name_elements(names, mk, names.len());
    if k > 0 {
        let children = name_elements(names, mk, names.len());
        lemma_names_read(names, ctx, mk, (k - 1) as nat);
        assert(name_fits(names[k - 1], ctx, mk));
        lemma_name_read(names[k - 1], ctx, mk);
        assert(children[k - 1] == name_element(names[k - 1], mk));
        assert(names.take(k - 1).push(names[k - 1]) =~= names.take(k as int));
    } else {
        assert(names.take(0) =~= Seq::<NameModel>::empty());
    }
}

/// The exceptions of a wildcard are read from what they are written as.
proof fn lemma_except_read(names: Seq<NameModel>, name: Text, ctx: ContextModel, mk: Markup)
    requires
        declared_by(ctx, mk),
        names_fit(names, ctx, mk),
    ensures
        xml_except_names(except_elements(names, mk), name, ctx) == Ok::<Seq<NameModel>, Text>(
            names,
        ),
    decreases names, names.len() + 1,
{
    let children = except_elements(names, mk);
    if names.len() == 0 {
        assert(names =~= Seq::<NameModel>::empty());
    } else {
        let e = children[0];
        lemma_no_attributes(e, Seq::empty());
        lemma_names_read(names, ctx, mk, names.len());
        lemma_name_elements(names, mk, names.len());
        assert(name_fits(names[0], ctx, mk));
        lemma_name_read(names[0], ctx, mk);
        assert(e.children[0] == name_element(names[0], mk));
        assert(next_rng(e.children, 0) == 0);
        assert(children_problem(e, Seq::empty()) is None);
        assert(next_except(children, 0) == 0);
        assert(next_except(children, 1) == 1);
        assert(names.take(names.len() as int) =~= names);
    }
}

// ---------------------------------------------------------------------
// Patterns
// ---------------------------------------------------------------------

/// A pattern as it is written, each operator under its tag.
pub open spec fn element_of(p: PatternModel, mk: Markup) -> XmlModel
    decreases p, 1nat,
{
    match p {
        PatternModel::Element { name, body, context } => named_element(
            "element"@,
            name,
            pattern_elements(body, mk, body.len()),
            false,
            mk,
        ),
        PatternModel::Attribute { name, body, context } => named_element(
            "attribute"@,
            name,
            pattern_elements(body, mk, body.len()),
            true,
            mk,
        ),
        PatternModel::Group(values) => container_element("group"@, values, mk),
        PatternModel::Interleave(values) => container_element("interleave"@, values, mk),
        PatternModel::Choice(values) => container_element("choice"@, values, mk),
        PatternModel::Optional(values) => container_element("optional"@, values, mk),
        PatternModel::ZeroOrMore(values) => container_element("zeroOrMore"@, values, mk),
        PatternModel::OneOrMore(values) => container_element("oneOrMore"@, values, mk),
        PatternModel::List(values) => container_element("list"@, values, mk),
        PatternModel::Mixed(values) => container_element("mixed"@, values, mk),
        PatternModel::Empty => tagged("empty"@, Seq::empty(), None, Seq::empty(), mk),
        PatternModel::NotAllowed => tagged("notAllowed"@, Seq::empty(), None, Seq::empty(), mk),
        PatternModel::Text => tagged("text"@, Seq::empty(), None, Seq::empty(), mk),
        PatternModel::Data { datatype, datatype_library, params, except, context } => tagged(
            "data"@,
            seq![set_to("type"@, datatype)],
            None,
            param_elements(params, mk, params.len()) + exception_elements(except, mk),
            mk,
        ),
        PatternModel::Value { value, datatype, datatype_library, namespace, context } => tagged(
            "value"@,
            match datatype {
                Some(local) => seq![set_to("type"@, local)],
                None => Seq::empty(),
            },
            Some(value),
            Seq::empty(),
            mk,
        ),
        PatternModel::Ref(name) => tagged(
            "ref"@,
            seq![set_to("name"@, name)],
            None,
            Seq::empty(),
            mk,
        ),
        PatternModel::ParentRef(name) => tagged(
            "parentRef"@,
            seq![set_to("name"@, name)],
            None,
            Seq::empty(),
            mk,
        ),
        PatternModel::ExternalRef { href, inherit_namespace, context } => tagged(
            "externalRef"@,
            reference_attributes(href, inherit_namespace),
            None,
            Seq::empty(),
            mk,
        ),
        PatternModel::Grammar(grammar) => grammar_element(grammar, mk),
    }
}

/// An element or attribute pattern: one name stands in the attribute `name`, another name
/// class as the first child.
pub open spec fn named_element(
    tag: Text,
    name: NameModel,
    body: Seq<XmlModel>,
    is_attribute: bool,
    mk: Markup,
) -> XmlModel {
    match name {
        NameModel::Name { lexical, namespace, context } => tagged(
            tag,
            seq![set_to("name"@, (mk.name)(lexical, namespace, is_attribute))],
            None,
            body,
            mk,
        ),
        _ => tagged(tag, Seq::empty(), None, seq![name_element(name, mk)] + body, mk),
    }
}

/// The attributes of a reference to another schema.
pub open spec fn reference_attributes(href: Text, inherit_namespace: Option<Text>) -> Seq<
    AttributeModel,
> {
    match inherit_namespace {
        Some(uri) => seq![set_to("href"@, href), set_to("ns"@, uri)],
        None => seq![set_to("href"@, href)],
    }
}

/// Patterns under a tag.
pub open spec fn container_element(tag: Text, values: Seq<PatternModel>, mk: Markup) -> XmlModel
    decreases values, values.len() + 1,
{
    tagged(tag, Seq::empty(), None, pattern_elements(values, mk, values.len()), mk)
}

/// The first `k` of some patterns as they are written.
pub open spec fn pattern_elements(values: Seq<PatternModel>, mk: Markup, k: nat) -> Seq<XmlModel>
    decreases values, k,
{
    if k == 0 || k > values.len() {
        Seq::empty()
    } else {
        pattern_elements(values, mk, (k - 1) as nat).push(element_of(values[k - 1], mk))
    }
}

/// The first `k` of some parameters as they are written.
pub open spec fn param_elements(params: Seq<ParamModel>, mk: Markup, k: nat) -> Seq<XmlModel>
    decreases k,
{
    if k == 0 || k > params.len() {
        Seq::empty()
    } else {
        let param = params[k - 1];
        param_elements(params, mk, (k - 1) as nat).push(
            tagged(
                "param"@,
                seq![set_to("name"@, param.name)],
                Some(param.value),
                Seq::empty(),
                mk,
            ),
        )
    }
}

/// The exceptions of a datatype, where there are any.
pub open spec fn exception_elements(except: Seq<PatternModel>, mk: Markup) -> Seq<XmlModel>
    decreases except, except.len() + 2,
{
    if except.len() == 0 {
        Seq::empty()
    } else {
        seq![container_element("except"@, except, mk)]
    }
}

/// A grammar as it is written.
pub open spec fn grammar_element(grammar: GrammarModel, mk: Markup) -> XmlModel
    decreases grammar, 0nat,
{
    tagged(
        "grammar"@,
        Seq::empty(),
        None,
        item_elements(grammar.items, mk, grammar.items.len()),
        mk,
    )
}

/// The first `k` of some grammar components as they are written.
pub open spec fn item_elements(items: Seq<ItemModel>, mk: Markup, k: nat) -> Seq<XmlModel>
    decreases items, k,
{
    if k == 0 || k > items.len() {
        Seq::empty()
    } else {
        item_elements(items, mk, (k - 1) as nat).push(item_element(items[k - 1], mk))
    }
}

/// How definitions combine, as it is written.
pub open spec fn combine_attributes(combine: Option<Combine>) -> Seq<AttributeModel> {
    match combine {
        Some(Combine::Choice) => seq![set_to("combine"@, "choice"@)],
        Some(Combine::Interleave) => seq![set_to("combine"@, "interleave"@)],
        None => Seq::empty(),
    }
}

/// A grammar component as it is written.
pub open spec fn item_element(item: ItemModel, mk: Markup) -> XmlModel
    decreases item, 0nat,
{
    match item {
        ItemModel::Start { combine, body } => tagged(
            "start"@,
            combine_attributes(combine),
            None,
            pattern_elements(body, mk, body.len()),
            mk,
        ),
        ItemModel::Define { name, combine, body } => tagged(
            "define"@,
            seq![set_to("name"@, name)] + combine_attributes(combine),
            None,
            pattern_elements(body, mk, body.len()),
            mk,
        ),
        ItemModel::Div(items) => tagged(
            "div"@,
            Seq::empty(),
            None,
            item_elements(items, mk, items.len()),
            mk,
        ),
        ItemModel::Include { href, inherit_namespace, body, context } => tagged(
            "include"@,
            reference_attributes(href, inherit_namespace),
            None,
            item_elements(body, mk, body.len()),
            mk,
        ),
    }
}

/// Whether a text has no white space at either end.
pub open spec fn trimmed_already(t: Text) -> bool {
    trim(t) == t
}

/// Whether the namespace that a reference names, if any, can be written.
pub open spec fn inherits(
    inherit_namespace: Option<Text>,
    context: ContextModel,
    ctx: ContextModel,
) -> bool {
    context == with_ns(ctx, inherit_namespace) && (inherit_namespace matches Some(uri)
        ==> trimmed_already(uri))
}

/// Whether the name class of an element or attribute pattern can be written.
pub open spec fn named_fits(
    name: NameModel,
    is_attribute: bool,
    ctx: ContextModel,
    mk: Markup,
) -> bool {
    match name {
        NameModel::Name { lexical, namespace, context } => context == ctx && spells(
            (mk.name)(lexical, namespace, is_attribute),
            lexical,
            namespace,
            if is_attribute {
                Some(Seq::empty())
            } else {
                ctx.ns
            },
            ctx,
        ),
        _ => name_fits(name, ctx, mk),
    }
}

/// Whether a pattern can be written in a context.
pub open spec fn fits(p: PatternModel, ctx: ContextModel, mk: Markup) -> bool
    decreases p,
{
    match p {
        PatternModel::Element { name, body, context } => context == ctx && named_fits(
            name,
            false,
            ctx,
            mk,
        ) && body.len() >= 1 && all_fit(body, ctx, mk),
        PatternModel::Attribute { name, body, context } => context == ctx && named_fits(
            name,
            true,
            ctx,
            mk,
        ) && body.len() == 1 && all_fit(body, ctx, mk),
        PatternModel::Group(values) => values.len() >= 1 && all_fit(values, ctx, mk),
        PatternModel::Interleave(values) => values.len() >= 1 && all_fit(values, ctx, mk),
        PatternModel::Choice(values) => values.len() >= 1 && all_fit(values, ctx, mk),
        PatternModel::Optional(values) => values.len() >= 1 && all_fit(values, ctx, mk),
        PatternModel::ZeroOrMore(values) => values.len() >= 1 && all_fit(values, ctx, mk),
        PatternModel::OneOrMore(values) => values.len() >= 1 && all_fit(values, ctx, mk),
        PatternModel::List(values) => values.len() >= 1 && all_fit(values, ctx, mk),
        PatternModel::Mixed(values) => values.len() >= 1 && all_fit(values, ctx, mk),
        PatternModel::Empty => true,
        PatternModel::NotAllowed => true,
        PatternModel::Text => true,
        PatternModel::Data { datatype, datatype_library, params, except, context } => context == ctx
            && datatype_library == ctx.datatype_library && trimmed_already(datatype) && (forall|
            i: int,
        |
            0 <= i < params.len() ==> (#[trigger] params[i]).context == ctx) && all_fit(
            except,
            ctx,
            mk,
        ),
        PatternModel::Value { value, datatype, datatype_library, namespace, context } => context
            == ctx && namespace == Some(or_empty(ctx.ns)) && match datatype {
            Some(local) => trimmed_already(local) && datatype_library == ctx.datatype_library,
            None => datatype_library is None,
        },
        PatternModel::Ref(name) => ncname(name) && trimmed_already(name),
        PatternModel::ParentRef(name) => ncname(name) && trimmed_already(name),
        PatternModel::ExternalRef { href, inherit_namespace, context } => inherits(
            inherit_namespace,
            context,
            ctx,
        ),
        PatternModel::Grammar(grammar) => grammar_fits(grammar, ctx, mk),
    }
}

/// Whether each of some patterns can be written.
pub open spec fn all_fit(values: Seq<PatternModel>, ctx: ContextModel, mk: Markup) -> bool
    decreases values,
{
    forall|i: int| 0 <= i < values.len() ==> fits(#[trigger] values[i], ctx, mk)
}

/// Whether a grammar can be written.
pub open spec fn grammar_fits(grammar: GrammarModel, ctx: ContextModel, mk: Markup) -> bool
    decreases grammar,
{
    grammar.context == ctx && items_fit(grammar.items, ctx, mk)
}

/// Whether each of some grammar components can be written.
pub open spec fn items_fit(items: Seq<ItemModel>, ctx: ContextModel, mk: Markup) -> bool
    decreases items,
{
    forall|i: int| 0 <= i < items.len() ==> item_fits(#[trigger] items[i], ctx, mk)
}

/// Whether a grammar component can be written.
pub open spec fn item_fits(item: ItemModel, ctx: ContextModel, mk: Markup) -> bool
    decreases item,
{
    match item {
        ItemModel::Start { combine, body } => body.len() == 1 && all_fit(body, ctx, mk),
        ItemModel::Define { name, combine, body } => ncname(name) && trimmed_already(name)
            && body.len() == 1 && all_fit(body, ctx, mk),
        ItemModel::Div(items) => items_fit(items, ctx, mk),
        ItemModel::Include { href, inherit_namespace, body, context } => inherits(
            inherit_namespace,
            context,
            ctx,
        ) && items_fit(body, context, mk),
    }
}

/// The context that a pattern is read in.
pub open spec fn pattern_context(p: PatternModel, ctx: ContextModel) -> ContextModel {
    match p {
        PatternModel::ExternalRef { href, inherit_namespace, context } => with_ns(
            ctx,
            inherit_namespace,
        ),
        _ => ctx,
    }
}

/// The context that a grammar component is read in.
pub open spec fn item_context(item: ItemModel, ctx: ContextModel) -> ContextModel {
    match item {
        ItemModel::Include { href, inherit_namespace, body, context } => with_ns(
            ctx,
            inherit_namespace,
        ),
        _ => ctx,
    }
}

/// The elements of patterns, each at its place.
proof fn lemma_pattern_elements(values: Seq<PatternModel>, mk: Markup, k: nat)
    requires
        k <= values.len(),
    ensures
        pattern_elements(values, mk, k).len() == k,
        forall|i: int|
            0 <= i < k ==> #[trigger] pattern_elements(values, mk, k)[i] == element_of(
                values[i],
                mk,
            ),
    decreases k,
{
    if k > 0 {
        lemma_pattern_elements(values, mk, (k - 1) as nat);
    }
}

/// The elements of grammar components, each at its place.
proof fn lemma_item_elements(items: Seq<ItemModel>, mk: Markup, k: nat)
    requires
        k <= items.len(),
    ensures
        item_elements(items, mk, k).len() == k,
        forall|i: int|
            0 <= i < k ==> #[trigger] item_elements(items, mk, k)[i] == item_element(items[i], mk),
    decreases k,
{
    if k > 0 {
        lemma_item_elements(items, mk, (k - 1) as nat);
    }
}

/// The elements of parameters, each at its place.
proof fn lemma_param_elements(params: Seq<ParamModel>, mk: Markup, k: nat)
    requires
        k <= params.len(),
    ensures
        param_elements(params, mk, k).len() == k,
        forall|i: int|
            0 <= i < k ==> #[trigger] param_elements(params, mk, k)[i] == tagged(
                "param"@,
                seq![set_to("name"@, params[i].name)],
                Some(params[i].value),
                Seq::empty(),
                mk,
            ),
    decreases k,
{
    if k > 0 {
        lemma_param_elements(params, mk, (k - 1) as nat);
    }
}

/// Patterns behind other children are read from the elements that they are written as.
proof fn lemma_patterns_read(
    values: Seq<PatternModel>,
    front: Seq<XmlModel>,
    ctx: ContextModel,
    mk: Markup,
    n: nat,
)
    requires
        declared_by(ctx, mk),
        all_fit(values, ctx, mk),
        n <= front.len() + values.len(),
    ensures
        xml_patterns_in(
            front + pattern_elements(values, mk, values.len()),
            ctx,
            front.len() as int,
            n,
        ) == Ok::<Seq<PatternModel>, Text>(
            values.take(
                if n <= front.len() {
                    0
                } else {
                    n - front.len()
                },
            ),
        ),
    decreases values, 0nat, n,
{
    lemma_pattern_elements(values, mk, values.len());
    let children = front + pattern_elements(values, mk, values.len());
    if n == 0 {
        assert(values.take(0) =~= Seq::<PatternModel>::empty());
    } else {
        lemma_patterns_read(values, front, ctx, mk, (n - 1) as nat);
        if n > front.len() {
            let i = n - 1 - front.len();
            assert(fits(values[i], ctx, mk));
            lemma_pattern_read(values[i], ctx, mk);
            assert(children[n - 1] == element_of(values[i], mk));
            assert(values.take(i).push(values[i]) =~= values.take(i + 1));
        }
    }
}

/// Patterns under a tag are read from the elements that they are written as.
proof fn lemma_children_read(values: Seq<PatternModel>, ctx: ContextModel, mk: Markup)
    requires
        declared_by(ctx, mk),
        all_fit(values, ctx, mk),
    ensures
        ({
            let children = pattern_elements(values, mk, values.len());
            &&& xml_patterns_in(children, ctx, 0, children.len()) == Ok::<Seq<PatternModel>, Text>(
                values,
            )
            &&& values.len() > 0 ==> next_rng(children, 0) == 0
            &&& children.len() == values.len()
        }),
    decreases values, 1nat, 0nat,
{
    let children = pattern_elements(values, mk, values.len());
    lemma_pattern_elements(values, mk, values.len());
    lemma_patterns_read(values, Seq::empty(), ctx, mk, values.len());
    assert(Seq::<XmlModel>::empty() + children =~= children);
    assert(values.take(values.len() as int) =~= values);
    if values.len() > 0 {
        assert(fits(values[0], ctx, mk));
        lemma_pattern_read(values[0], ctx, mk);
        assert(children[0] == element_of(values[0], mk));
    }
}

/// Patterns under a tag are read from the element that they are written as.
proof fn lemma_container_read(
    tag: Text,
    values: Seq<PatternModel>,
    ctx: ContextModel,
    mk: Markup,
)
    requires
        declared_by(ctx, mk),
        values.len() >= 1,
        all_fit(values, ctx, mk),
    ensures
        xml_container(container_element(tag, values, mk), ctx) == Ok::<Seq<PatternModel>, Text>(
            values,
        ),
        context_at(container_element(tag, values, mk), ctx) == Ok::<ContextModel, Text>(ctx),
    decreases values, 2nat, 0nat,
{
    let e = container_element(tag, values, mk);
    lemma_no_attributes(e, Seq::empty());
    lemma_context(e, ctx, None, mk);
    lemma_children_read(values, ctx, mk);
}

/// An element or attribute pattern is read from the element that it is written as.
proof fn lemma_named_read(
    tag: Text,
    name: NameModel,
    body: Seq<PatternModel>,
    is_attribute: bool,
    ctx: ContextModel,
    mk: Markup,
)
    requires
        declared_by(ctx, mk),
        named_fits(name, is_attribute, ctx, mk),
        body.len() >= 1,
        is_attribute ==> body.len() == 1,
        all_fit(body, ctx, mk),
    ensures
        ({
            let e = named_element(
                tag,
                name,
                pattern_elements(body, mk, body.len()),
                is_attribute,
                mk,
            );
            &&& xml_named(e, ctx, is_attribute) == Ok::<(NameModel, Seq<PatternModel>), Text>(
                (name, body),
            )
            &&& context_at(e, ctx) == Ok::<ContextModel, Text>(ctx)
        }),
    decreases body, 2nat, 0nat,
{
    lemma_other_words();
    let inner = pattern_elements(body, mk, body.len());
    let e = named_element(tag, name, inner, is_attribute, mk);
    assert(seq!["name"@][0] == "name"@);
    lemma_children_read(body, ctx, mk);
    match name {
        NameModel::Name { lexical, namespace, context } => {
            let w = (mk.name)(lexical, namespace, is_attribute);
            lemma_one_attribute(e, "name"@, w, seq!["name"@]);
            lemma_context(e, ctx, None, mk);
            lemma_spells(
                w,
                lexical,
                namespace,
                if is_attribute {
                    Some(Seq::empty())
                } else {
                    ctx.ns
                },
                ctx,
            );
        },
        _ => {
            let front = seq![name_element(name, mk)];
            lemma_no_attributes(e, seq!["name"@]);
            lemma_context(e, ctx, None, mk);
            lemma_name_read(name, ctx, mk);
            lemma_patterns_read(body, front, ctx, mk, 1 + body.len());
            assert(body.take(body.len() as int) =~= body);
            assert(e.children == front + inner);
            assert(e.children[0] == front[0]);
            assert(next_rng(e.children, 0) == 0);
        },
    }
}

/// Children that are no exceptions are passed over.
proof fn lemma_next_except(children: Seq<XmlModel>, i: int, k: int)
    requires
        0 <= i <= k <= children.len(),
        forall|j: int| i <= j < k ==> (#[trigger] children[j]).name != "except"@,
    ensures
        next_except(children, i) == next_except(children, k),
    decreases k - i,
{
    if i < k {
        lemma_next_except(children, i + 1, k);
    }
}

/// Parameters are read from the elements that they are written as.
proof fn lemma_params_read(
    params: Seq<ParamModel>,
    rest: Seq<XmlModel>,
    ctx: ContextModel,
    mk: Markup,
    n: nat,
)
    requires
        declared_by(ctx, mk),
        forall|i: int| 0 <= i < params.len() ==> (#[trigger] params[i]).context == ctx,
        rest.len() <= 1,
        rest.len() == 1 ==> rest[0].name == "except"@,
        n <= params.len() + rest.len(),
    ensures
        xml_params_in(param_elements(params, mk, params.len()) + rest, ctx, n) == Ok::<
            Seq<ParamModel>,
            Text,
        >(
            params.take(
                if n <= params.len() {
                    n as int
                } else {
                    params.len() as int
                },
            ),
        ),
    decreases n,
{
    lemma_other_words();
    lemma_param_elements(params, mk, params.len());
    let children = param_elements(params, mk, params.len()) + rest;
    if n == 0 {
        assert(params.take(0) =~= Seq::<ParamModel>::empty());
    } else {
        lemma_params_read(params, rest, ctx, mk, (n - 1) as nat);
        if n <= params.len() {
            let param = params[n - 1];
            let e = children[n - 1];
            assert(e == param_elements(params, mk, params.len())[n - 1]);
            assert(seq!["name"@][0] == "name"@);
            lemma_one_attribute(e, "name"@, param.name, seq!["name"@]);
            lemma_context(e, ctx, None, mk);
            assert(text_problem(e, seq!["name"@]) is None);
            assert(param == ParamModel { name: param.name, value: param.value, context: ctx });
            assert(xml_param(e, ctx) == Ok::<ParamModel, Text>(param));
            assert(params.take(n - 1).push(param) =~= params.take(n as int));
        } else {
            assert(children[n - 1] == rest[0]);
        }
    }
}

/// A datatype is read from the element that it is written as.
#[verifier::rlimit(40)]
proof fn lemma_data_read(p: PatternModel, ctx: ContextModel, mk: Markup)
    requires
        p is Data,
        declared_by(ctx, mk),
        fits(p, ctx, mk),
    ensures
        xml_data(element_of(p, mk), ctx) == Ok::<PatternModel, Text>(p),
        context_at(element_of(p, mk), ctx) == Ok::<ContextModel, Text>(ctx),
    decreases p, 0nat, 0nat,
{
    lemma_other_words();
    match p {
        PatternModel::Data { datatype, datatype_library, params, except, context } => {
            let e = element_of(p, mk);
            let front = param_elements(params, mk, params.len());
            let rest = exception_elements(except, mk);
            assert(seq!["type"@][0] == "type"@);
            lemma_one_attribute(e, "type"@, datatype, seq!["type"@]);
            lemma_context(e, ctx, None, mk);
            lemma_param_elements(params, mk, params.len());
            lemma_params_read(params, rest, ctx, mk, params.len() + rest.len());
            assert(params.take(params.len() as int) =~= params);
            assert(e.children == front + rest);
            assert forall|j: int| 0 <= j < params.len() implies (#[trigger] e.children[j]).name
                != "except"@ by {
                assert(e.children[j] == front[j]);
            }
            lemma_next_except(e.children, 0, params.len() as int);
            if except.len() == 0 {
                assert(except =~= Seq::<PatternModel>::empty());
            } else {
                let inner = rest[0];
                assert(e.children[params.len() as int] == inner);
                assert(inner.name == "except"@ && in_rng(inner));
                assert(next_except(e.children, params.len() as int) == params.len());
                assert(next_except(e.children, params.len() as int + 1) == params.len() + 1);
                lemma_container_read("except"@, except, ctx, mk);
            }
            assert(xml_except_patterns(e.children, ctx) == Ok::<Seq<PatternModel>, Text>(except));
        },
        _ => {},
    }
}

/// A pattern is read from the element that it is written as.
#[verifier::rlimit(40)]
proof fn lemma_pattern_read(p: PatternModel, ctx: ContextModel, mk: Markup)
    requires
        declared_by(ctx, mk),
        fits(p, ctx, mk),
    ensures
        in_rng(element_of(p, mk)),
        context_at(element_of(p, mk), ctx) == Ok::<ContextModel, Text>(pattern_context(p, ctx)),
        xml_pattern_of(element_of(p, mk), pattern_context(p, ctx)) == Ok::<PatternModel, Text>(p),
    decreases p, 1nat, 0nat,
{
    lemma_words();
    let e = element_of(p, mk);
    match p {
        PatternModel::Element { name, body, context } => {
            lemma_named_read("element"@, name, body, false, ctx, mk);
        },
        PatternModel::Attribute { name, body, context } => {
            lemma_named_read("attribute"@, name, body, true, ctx, mk);
        },
        PatternModel::Group(values) => {
            lemma_container_read("group"@, values, ctx, mk);
        },
        PatternModel::Interleave(values) => {
            lemma_container_read("interleave"@, values, ctx, mk);
        },
        PatternModel::Choice(values) => {
            lemma_container_read("choice"@, values, ctx, mk);
        },
        PatternModel::Optional(values) => {
            lemma_container_read("optional"@, values, ctx, mk);
        },
        PatternModel::ZeroOrMore(values) => {
            lemma_container_read("zeroOrMore"@, values, ctx, mk);
        },
        PatternModel::OneOrMore(values) => {
            lemma_container_read("oneOrMore"@, values, ctx, mk);
        },
        PatternModel::List(values) => {
            lemma_container_read("list"@, values, ctx, mk);
        },
        PatternModel::Mixed(values) => {
            lemma_container_read("mixed"@, values, ctx, mk);
        },
        PatternModel::Data { datatype, datatype_library, params, except, context } => {
            lemma_data_read(p, ctx, mk);
        },
        PatternModel::Grammar(grammar) => {
            lemma_grammar_read(grammar, ctx, mk);
        },
        _ => {
            lemma_leaf_read(p, ctx, mk);
        },
    }
}

/// A pattern without patterns in it is read from the element that it is written as.
#[verifier::rlimit(40)]
proof fn lemma_leaf_read(p: PatternModel, ctx: ContextModel, mk: Markup)
    requires
        declared_by(ctx, mk),
        fits(p, ctx, mk),
        p is Empty || p is NotAllowed || p is Text || p is Value || p is Ref || p is ParentRef || p
            is ExternalRef,
    ensures
        in_rng(element_of(p, mk)),
        context_at(element_of(p, mk), ctx) == Ok::<ContextModel, Text>(pattern_context(p, ctx)),
        xml_pattern_of(element_of(p, mk), pattern_context(p, ctx)) == Ok::<PatternModel, Text>(p),
{
    lemma_words();
    lemma_other_words();
    let e = element_of(p, mk);
    assert(seq!["name"@][0] == "name"@);
    assert(seq!["type"@][0] == "type"@);
    assert(seq!["href"@][0] == "href"@);
    match p {
        PatternModel::Value { value, datatype, datatype_library, namespace, context } => {
            match datatype {
                Some(local) => {
                    lemma_one_attribute(e, "type"@, local, seq!["type"@]);
                },
                None => {
                    lemma_no_attributes(e, seq!["type"@]);
                },
            }
            lemma_context(e, ctx, None, mk);
            assert(text_problem(e, seq!["type"@]) is None);
            assert(xml_value(e, ctx) == Ok::<PatternModel, Text>(p));
        },
        PatternModel::Ref(name) => {
            lemma_one_attribute(e, "name"@, name, seq!["name"@]);
            lemma_context(e, ctx, None, mk);
            assert(leaf_problem(e, seq!["name"@]) is None);
            assert(required_name(e, "ref name"@) == Ok::<Text, Text>(name));
        },
        PatternModel::ParentRef(name) => {
            lemma_one_attribute(e, "name"@, name, seq!["name"@]);
            lemma_context(e, ctx, None, mk);
            assert(leaf_problem(e, seq!["name"@]) is None);
            assert(required_name(e, "parentRef name"@) == Ok::<Text, Text>(name));
        },
        PatternModel::ExternalRef { href, inherit_namespace, context } => {
            lemma_reference_attributes(e, href, inherit_namespace, ctx, mk);
            assert(leaf_problem(e, seq!["href"@]) is None);
        },
        _ => {
            lemma_no_attributes(e, Seq::empty());
            lemma_context(e, ctx, None, mk);
            assert(leaf_problem(e, Seq::empty()) is None);
        },
    }
}

/// What the attributes of a reference to another schema say.
proof fn lemma_reference_attributes(
    e: XmlModel,
    href: Text,
    inherit_namespace: Option<Text>,
    ctx: ContextModel,
    mk: Markup,
)
    requires
        declared_by(ctx, mk),
        e.namespaces == mk.namespaces,
        e.attributes == reference_attributes(href, inherit_namespace),
        inherit_namespace matches Some(uri) ==> trimmed_already(uri),
    ensures
        unknown_attributes(e, seq!["href"@]) is None,
        plain_attribute(e, "href"@) == Some(href),
        token_attribute_of(e, "ns"@) == inherit_namespace,
        context_at(e, ctx) == Ok::<ContextModel, Text>(with_ns(ctx, inherit_namespace)),
        declared_by(with_ns(ctx, inherit_namespace), mk),
{
    lemma_other_words();
    assert(seq!["href"@][0] == "href"@);
    match inherit_namespace {
        Some(uri) => {
            lemma_two_attributes(e, "href"@, href, "ns"@, uri, seq!["href"@]);
            lemma_context(e, ctx, Some(uri), mk);
        },
        None => {
            lemma_one_attribute(e, "href"@, href, seq!["href"@]);
            lemma_context(e, ctx, None, mk);
        },
    }
}

/// A grammar is read from the element that it is written as.
proof fn lemma_grammar_read(grammar: GrammarModel, ctx: ContextModel, mk: Markup)
    requires
        declared_by(ctx, mk),
        grammar_fits(grammar, ctx, mk),
    ensures
        context_at(grammar_element(grammar, mk), ctx) == Ok::<ContextModel, Text>(ctx),
        xml_grammar_of(grammar_element(grammar, mk), ctx) == Ok::<GrammarModel, Text>(grammar),
    decreases grammar, 0nat, 0nat,
{
    let e = grammar_element(grammar, mk);
    lemma_no_attributes(e, Seq::empty());
    lemma_context(e, ctx, None, mk);
    lemma_items_read(grammar.items, ctx, mk, grammar.items.len());
    lemma_item_elements(grammar.items, mk, grammar.items.len());
    assert(grammar.items.take(grammar.items.len() as int) =~= grammar.items);
}

/// Grammar components are read from the elements that they are written as.
proof fn lemma_items_read(items: Seq<ItemModel>, ctx: ContextModel, mk: Markup, k: nat)
    requires
        declared_by(ctx, mk),
        items_fit(items, ctx, mk),
        k <= items.len(),
    ensures
        xml_items_in(item_elements(items, mk, items.len()), ctx, k) == Ok::<Seq<ItemModel>, Text>(
            items.take(k as int),
        ),
    decreases items, 0nat, k,
{
    lemma_item_elements(items, mk, items.len());
    if k > 0 {
        let children = item_elements(items, mk, items.len());
        lemma_items_read(items, ctx, mk, (k - 1) as nat);
        assert(item_fits(items[k - 1], ctx, mk));
        lemma_item_read(items[k - 1], ctx, mk);
        assert(children[k - 1] == item_element(items[k - 1], mk));
        assert(items.take(k - 1).push(items[k - 1]) =~= items.take(k as int));
    } else {
        assert(items.take(0) =~= Seq::<ItemModel>::empty());
    }
}

/// The words for how definitions combine have no white space around them.
proof fn lemma_combine_words()
    ensures
        trim("choice"@) == "choice"@,
        trim("interleave"@) == "interleave"@,
{
    reveal_strlit("choice");
    reveal_strlit("interleave");
    assert("choice"@.len() == 6);
    assert("interleave"@.len() == 10);
    crate::datatypes::facets::lemma_trim_kept("choice"@);
    crate::datatypes::facets::lemma_trim_kept("interleave"@);
}

/// A grammar component is read from the element that it is written as.
#[verifier::rlimit(40)]
proof fn lemma_item_read(item: ItemModel, ctx: ContextModel, mk: Markup)
    requires
        declared_by(ctx, mk),
        item_fits(item, ctx, mk),
    ensures
        in_rng(item_element(item, mk)),
        context_at(item_element(item, mk), ctx) == Ok::<ContextModel, Text>(
            item_context(item, ctx),
        ),
        xml_item_of(item_element(item, mk), item_context(item, ctx)) == Ok::<ItemModel, Text>(item),
    decreases item, 0nat, 0nat,
{
    lemma_other_words();
    lemma_combine_words();
    let e = item_element(item, mk);
    match item {
        ItemModel::Start { combine, body } => {
            let allowed = seq!["combine"@];
            assert(allowed[0] == "combine"@);
            match combine {
                Some(Combine::Choice) => {
                    lemma_one_attribute(e, "combine"@, "choice"@, allowed);
                },
                Some(Combine::Interleave) => {
                    lemma_one_attribute(e, "combine"@, "interleave"@, allowed);
                },
                None => {
                    lemma_no_attributes(e, allowed);
                },
            }
            lemma_context(e, ctx, None, mk);
            lemma_children_read(body, ctx, mk);
            assert(combine_of(e) == Ok::<Option<Combine>, Text>(combine));
            assert(children_problem(e, allowed) is None);
        },
        ItemModel::Define { name, combine, body } => {
            let allowed = seq!["name"@, "combine"@];
            assert(allowed[0] == "name"@ && allowed[1] == "combine"@);
            match combine {
                Some(Combine::Choice) => {
                    assert(e.attributes =~= seq![
                        set_to("name"@, name),
                        set_to("combine"@, "choice"@),
                    ]);
                    lemma_two_attributes(e, "name"@, name, "combine"@, "choice"@, allowed);
                },
                Some(Combine::Interleave) => {
                    assert(e.attributes =~= seq![
                        set_to("name"@, name),
                        set_to("combine"@, "interleave"@),
                    ]);
                    lemma_two_attributes(e, "name"@, name, "combine"@, "interleave"@, allowed);
                },
                None => {
                    assert(e.attributes =~= seq![set_to("name"@, name)]);
                    lemma_one_attribute(e, "name"@, name, allowed);
                },
            }
            lemma_context(e, ctx, None, mk);
            lemma_children_read(body, ctx, mk);
            assert(combine_of(e) == Ok::<Option<Combine>, Text>(combine));
            assert(children_problem(e, allowed) is None);
            assert(required_name(e, "define name"@) == Ok::<Text, Text>(name));
        },
        ItemModel::Div(items) => {
            lemma_no_attributes(e, Seq::empty());
            lemma_context(e, ctx, None, mk);
            lemma_items_read(items, ctx, mk, items.len());
            lemma_item_elements(items, mk, items.len());
            assert(items.take(items.len() as int) =~= items);
        },
        ItemModel::Include { href, inherit_namespace, body, context } => {
            lemma_reference_attributes(e, href, inherit_namespace, ctx, mk);
            lemma_items_read(body, context, mk, body.len());
            lemma_item_elements(body, mk, body.len());
            assert(body.take(body.len() as int) =~= body);
        },
    }
}

// ---------------------------------------------------------------------
// Laws
// ---------------------------------------------------------------------

/// Reading the element that a pattern is written as, each operator under its tag, gives that
/// pattern back.
pub proof fn law_patterns_are_read_back(p: PatternModel, ctx: ContextModel, mk: Markup)
    requires
        declared_by(ctx, mk),
        fits(p, ctx, mk),
    ensures
        context_at(element_of(p, mk), ctx) == Ok::<ContextModel, Text>(pattern_context(p, ctx)),
        xml_pattern_of(element_of(p, mk), pattern_context(p, ctx)) == Ok::<PatternModel, Text>(p),
{
    lemma_pattern_read(p, ctx, mk);
}

/// Reading the element that a schema is written as gives that schema back.
pub proof fn law_schemas_are_read_back(
    root: RootModel,
    base_uri: Text,
    inherited: Option<Text>,
    ctx: ContextModel,
    mk: Markup,
)
    requires
        ctx.base_uri == base_uri,
        ctx.ns == inherited,
        ctx.datatype_library == Some(Seq::<char>::empty()),
        declared_by(ctx, mk),
        root matches RootModel::Grammar(grammar) ==> grammar_fits(grammar, ctx, mk),
        root matches RootModel::Pattern(p) ==> fits(p, ctx, mk) && !(p is Grammar) && !(p
            is ExternalRef),
    ensures
        ({
            let e = match root {
                RootModel::Grammar(grammar) => grammar_element(grammar, mk),
                RootModel::Pattern(p) => element_of(p, mk),
            };
            xml_root(e, base_uri, inherited) == Ok::<RootModel, Text>(root)
        }),
{
    lemma_words();
    match root {
        RootModel::Grammar(grammar) => {
            lemma_grammar_read(grammar, ctx, mk);
        },
        RootModel::Pattern(p) => {
            lemma_pattern_read(p, ctx, mk);
        },
    }
}

/// A schema reads the same in both syntaxes: the element and the tokens that a pattern is
/// written as are read as the same pattern.
pub proof fn law_both_syntaxes_read_the_same(
    p: PatternModel,
    ctx: ContextModel,
    mk: Markup,
    sp: Spelling,
    s: Seq<TokenModel>,
    pos: nat,
)
    requires
        declared_by(ctx, mk),
        fits(p, ctx, mk),
        writable(p, ctx, sp),
        at(s, pos, tokens(p, 0, sp)),
        ends(token_at(s, pos + tokens(p, 0, sp).len()), 0),
    ensures
        read_level(s, pos, ctx, 0) matches Ok((read, end)) && xml_pattern_of(
            element_of(p, mk),
            pattern_context(p, ctx),
        ) == Ok::<PatternModel, Text>(read),
{
    law_patterns_are_read_back(p, ctx, mk);
    crate::compact_writing::law_patterns_are_read_back(p, ctx, sp, s, pos);
}

/// A grammar reads the same in both syntaxes.
pub proof fn law_both_syntaxes_read_grammars_the_same(
    grammar: GrammarModel,
    ctx: ContextModel,
    mk: Markup,
    sp: Spelling,
)
    requires
        declared_by(ctx, mk),
        ctx.datatype_library == Some(Seq::<char>::empty()),
        grammar_fits(grammar, ctx, mk),
        grammar_writable(grammar, ctx, sp),
    ensures
        read_schema(
            (term("grammar"@) + grammar_tokens(grammar, sp)).push(TokenModel::End),
            ctx,
        ) == xml_root(grammar_element(grammar, mk), ctx.base_uri, ctx.ns),
{
    law_schemas_are_read_back(RootModel::Grammar(grammar), ctx.base_uri, ctx.ns, ctx, mk);
    law_braced_grammars_are_read_back(grammar, ctx, sp);
}

/// What is read where children stand under a tag.
pub open spec fn under(tag: Text, e: XmlModel, ctx: ContextModel) -> Result<PatternModel, Text> {
    xml_pattern_of(XmlModel { name: tag, ..e }, ctx)
}

/// The same children under each of the tags of operators: they are read alike, and make the
/// pattern that the tag names.
#[verifier::rlimit(40)]
pub proof fn law_tags_name_their_operators(e: XmlModel, ctx: ContextModel)
    ensures
        match under("group"@, e, ctx) {
            Ok(PatternModel::Group(values)) => {
                &&& under("interleave"@, e, ctx) == Ok::<PatternModel, Text>(
                    PatternModel::Interleave(values),
                )
                &&& under("choice"@, e, ctx) == Ok::<PatternModel, Text>(
                    PatternModel::Choice(values),
                )
                &&& under("optional"@, e, ctx) == Ok::<PatternModel, Text>(
                    PatternModel::Optional(values),
                )
                &&& under("zeroOrMore"@, e, ctx) == Ok::<PatternModel, Text>(
                    PatternModel::ZeroOrMore(values),
                )
                &&& under("oneOrMore"@, e, ctx) == Ok::<PatternModel, Text>(
                    PatternModel::OneOrMore(values),
                )
                &&& under("list"@, e, ctx) == Ok::<PatternModel, Text>(PatternModel::List(values))
                &&& under("mixed"@, e, ctx) == Ok::<PatternModel, Text>(
                    PatternModel::Mixed(values),
                )
            },
            Ok(_) => false,
            Err(_) => {
                &&& under("interleave"@, e, ctx) is Err
                &&& under("choice"@, e, ctx) is Err
                &&& under("optional"@, e, ctx) is Err
                &&& under("zeroOrMore"@, e, ctx) is Err
                &&& under("oneOrMore"@, e, ctx) is Err
                &&& under("list"@, e, ctx) is Err
                &&& under("mixed"@, e, ctx) is Err
            },
        },
{
    lemma_words();
    lemma_same_children(e, "interleave"@, ctx);
    lemma_same_children(e, "choice"@, ctx);
    lemma_same_children(e, "optional"@, ctx);
    lemma_same_children(e, "zeroOrMore"@, ctx);
    lemma_same_children(e, "oneOrMore"@, ctx);
    lemma_same_children(e, "list"@, ctx);
    lemma_same_children(e, "mixed"@, ctx);
}

/// The tag has no part in how the children are read.
proof fn lemma_same_children(e: XmlModel, tag: Text, ctx: ContextModel)
    ensures
        ({
            let a = xml_container(XmlModel { name: "group"@, ..e }, ctx);
            let b = xml_container(XmlModel { name: tag, ..e }, ctx);
            (a is Ok <==> b is Ok) && (a is Ok ==> a == b)
        }),
{
    let f = XmlModel { name: "group"@, ..e };
    let g = XmlModel { name: tag, ..e };
    lemma_same_attributes(f, g, Seq::empty(), e.attributes.len());
}

/// The tag has no part in which attributes may stand.
proof fn lemma_same_attributes(f: XmlModel, g: XmlModel, allowed: Seq<Text>, n: nat)
    requires
        f.attributes == g.attributes,
    ensures
        unknown_attribute(f, allowed, n) is None <==> unknown_attribute(g, allowed, n) is None,
    decreases n,
{
    if n > 0 && n <= f.attributes.len() {
        lemma_same_attributes(f, g, allowed, (n - 1) as nat);
    }
}

/// A `zeroOrMore` describes nothing at all, everything that a `oneOrMore` with the same
/// children describes, and no more.
#[verifier::rlimit(40)]
pub proof fn law_zero_or_more_is_one_or_more_or_nothing(
    e: XmlModel,
    ctx: ContextModel,
    place: PlaceModel,
    state: StateModel,
    m: Given,
    setting: Setting,
    depth: nat,
    d: nat,
)
    requires
        under("oneOrMore"@, e, ctx) matches Ok(p) && all_simple(
            operands(p)->0,
            place,
            state,
            depth,
            operands(p)->0.len(),
        ) is Ok,
    ensures
        ({
            let many = under("oneOrMore"@, e, ctx);
            let any = under("zeroOrMore"@, e, ctx);
            let p = simple(many->Ok_0, place, state, depth);
            let q = simple(any->Ok_0, place, state, depth);
            any is Ok && p is Ok && q is Ok && (meets(q->Ok_0.0, m, setting, d) <==> m == nothing()
                || meets(p->Ok_0.0, m, setting, d))
        }),
{
    lemma_words();
    let many = under("oneOrMore"@, e, ctx)->Ok_0;
    let any = under("zeroOrMore"@, e, ctx)->Ok_0;
    lemma_same_children(e, "zeroOrMore"@, ctx);
    lemma_same_children(e, "oneOrMore"@, ctx);
    law_composed_forms_keep_meaning(many, place, state, m, setting, depth, d);
    law_composed_forms_keep_meaning(any, place, state, m, setting, depth, d);
}

/// Where an element stands in a context, what it says itself wins: its namespace and its
/// datatype library, without white space around them, are in force inside it, and those of
/// the context otherwise. A prefix stands for what its last declaration says, and `xml` for
/// its own namespace where nothing declares it.
pub proof fn law_elements_inherit_their_context(e: XmlModel, ctx: ContextModel, i: int)
    requires
        context_at(e, ctx) is Ok,
        0 <= i < e.namespaces.len(),
    ensures
        ({
            let inner = context_at(e, ctx)->Ok_0;
            &&& inner.ns == (match plain_attribute(e, "ns"@) {
                Some(value) => Some(trim(value)),
                None => ctx.ns,
            })
            &&& inner.datatype_library == (match plain_attribute(e, "datatypeLibrary"@) {
                Some(value) => Some(trim(value)),
                None => ctx.datatype_library,
            })
            &&& e.namespaces[i].0 is Some && (forall|j: int|
                i < j < e.namespaces.len() ==> (#[trigger] e.namespaces[j]).0 != e.namespaces[i].0)
                ==> lookup(inner.namespaces, e.namespaces[i].0->0) == Some(e.namespaces[i].1)
            &&& (forall|j: int|
                0 <= j < e.namespaces.len() ==> (#[trigger] e.namespaces[j]).0 != Some("xml"@))
                ==> lookup(inner.namespaces, "xml"@) == Some(XML_NAMESPACE@)
            &&& e.namespaces[i].0 is None && (forall|j: int|
                i < j < e.namespaces.len() ==> (#[trigger] e.namespaces[j]).0 is Some)
                ==> inner.default_namespace == Some(e.namespaces[i].1)
            &&& (forall|j: int|
                0 <= j < e.namespaces.len() ==> (#[trigger] e.namespaces[j]).0 is Some)
                ==> inner.default_namespace is None
        }),
{
    let s = e.namespaces;
    let n = s.len();
    let prefixes = declared_prefixes(s, n);
    lemma_inserted_lookup(prefixes, "xml"@, XML_NAMESPACE@, "xml"@);
    if s[i].0 is Some {
        let prefix = s[i].0->0;
        lemma_inserted_lookup(prefixes, "xml"@, XML_NAMESPACE@, prefix);
        if forall|j: int| i < j < n ==> (#[trigger] s[j]).0 != Some(prefix) {
            lemma_last_declared(s, i, n);
        }
    }
    if forall|j: int| 0 <= j < n ==> (#[trigger] s[j]).0 != Some("xml"@) {
        lemma_never_declared(s, "xml"@, n);
    }
    if s[i].0 is None && (forall|j: int| i < j < n ==> (#[trigger] s[j]).0 is Some) {
        lemma_last_default(s, i, n);
    }
    if forall|j: int| 0 <= j < n ==> (#[trigger] s[j]).0 is Some {
        lemma_no_default(s, n);
    }
}

/// A prefix stands for what its last declaration says.
proof fn lemma_last_declared(s: Seq<(Option<Text>, Text)>, i: int, n: nat)
    requires
        0 <= i < n <= s.len(),
        s[i].0 is Some,
        forall|j: int| i < j < n ==> (#[trigger] s[j]).0 != s[i].0,
    ensures
        lookup(declared_prefixes(s, n), s[i].0->0) == Some(s[i].1),
        has_key(declared_prefixes(s, n), s[i].0->0),
    decreases n,
{
    let k = (n - 1) as nat;
    let rest = declared_prefixes(s, k);
    if i < n - 1 {
        lemma_last_declared(s, i, k);
    }
    if s[n - 1].0 is Some {
        lemma_inserted_lookup(rest, s[n - 1].0->0, s[n - 1].1, s[i].0->0);
    }
}

/// A prefix that nothing declares stands for nothing.
proof fn lemma_never_declared(s: Seq<(Option<Text>, Text)>, prefix: Text, n: nat)
    requires
        n <= s.len(),
        forall|j: int| 0 <= j < n ==> (#[trigger] s[j]).0 != Some(prefix),
    ensures
        lookup(declared_prefixes(s, n), prefix) is None,
    decreases n,
{
    if n > 0 {
        let k = (n - 1) as nat;
        lemma_never_declared(s, prefix, k);
        if s[n - 1].0 is Some {
            lemma_inserted_lookup(declared_prefixes(s, k), s[n - 1].0->0, s[n - 1].1, prefix);
        }
    }
}

/// The default namespace is what its last declaration says.
proof fn lemma_last_default(s: Seq<(Option<Text>, Text)>, i: int, n: nat)
    requires
        0 <= i < n <= s.len(),
        s[i].0 is None,
        forall|j: int| i < j < n ==> (#[trigger] s[j]).0 is Some,
    ensures
        declared_default(s, n) == Some(s[i].1),
    decreases n,
{
    if i < n - 1 {
        lemma_last_default(s, i, (n - 1) as nat);
    }
}

/// Without a declaration there is no default namespace.
proof fn lemma_no_default(s: Seq<(Option<Text>, Text)>, n: nat)
    requires
        n <= s.len(),
        forall|j: int| 0 <= j < n ==> (#[trigger] s[j]).0 is Some,
    ensures
        declared_default(s, n) is None,
    decreases n,
{
    if n > 0 {
        lemma_no_default(s, (n - 1) as nat);
    }
}

/// Elements of other namespaces are passed over wherever they stand, among patterns, name
/// classes and grammar components alike.
pub proof fn law_foreign_elements_are_passed_over(
    a: Seq<XmlModel>,
    x: XmlModel,
    b: Seq<XmlModel>,
    ctx: ContextModel,
)
    requires
        x.namespace != Some(RNG_NAMESPACE@),
    ensures
        ({
            let with = a + seq![x] + b;
            let without = a + b;
            &&& xml_patterns_in(with, ctx, 0, with.len()) == xml_patterns_in(
                without,
                ctx,
                0,
                without.len(),
            )
            &&& xml_names_in(with, ctx, with.len()) == xml_names_in(without, ctx, without.len())
            &&& xml_items_in(with, ctx, with.len()) == xml_items_in(without, ctx, without.len())
        }),
{
    lemma_before_foreign(a, x, b, ctx, a.len());
    lemma_behind_foreign(a, x, b, ctx, b.len());
}

/// What stands before a foreign element is read as it is.
proof fn lemma_before_foreign(
    a: Seq<XmlModel>,
    x: XmlModel,
    b: Seq<XmlModel>,
    ctx: ContextModel,
    n: nat,
)
    requires
        n <= a.len(),
    ensures
        ({
            let with = a + seq![x] + b;
            let without = a + b;
            &&& xml_patterns_in(with, ctx, 0, n) == xml_patterns_in(without, ctx, 0, n)
            &&& xml_names_in(with, ctx, n) == xml_names_in(without, ctx, n)
            &&& xml_items_in(with, ctx, n) == xml_items_in(without, ctx, n)
        }),
    decreases n,
{
    if n > 0 {
        lemma_before_foreign(a, x, b, ctx, (n - 1) as nat);
        assert((a + seq![x] + b)[n - 1] == a[n - 1]);
        assert((a + b)[n - 1] == a[n - 1]);
    }
}

/// What stands behind a foreign element is read as it is.
proof fn lemma_behind_foreign(
    a: Seq<XmlModel>,
    x: XmlModel,
    b: Seq<XmlModel>,
    ctx: ContextModel,
    n: nat,
)
    requires
        n <= b.len(),
        x.namespace != Some(RNG_NAMESPACE@),
    ensures
        ({
            let with = a + seq![x] + b;
            let without = a + b;
            let k = a.len();
            &&& xml_patterns_in(with, ctx, 0, k + 1 + n) == xml_patterns_in(
                without,
                ctx,
                0,
                k + n,
            )
            &&& xml_names_in(with, ctx, k + 1 + n) == xml_names_in(without, ctx, k + n)
            &&& xml_items_in(with, ctx, k + 1 + n) == xml_items_in(without, ctx, k + n)
        }),
    decreases n,
{
    let with = a + seq![x] + b;
    let without = a + b;
    let k = a.len();
    lemma_before_foreign(a, x, b, ctx, k);
    if n == 0 {
        assert(with[k as int] == x);
    } else {
        lemma_behind_foreign(a, x, b, ctx, (n - 1) as nat);
        assert(with[(k + n) as int] == b[n - 1]);
        assert(without[k + n - 1] == b[n - 1]);
    }
}

/// A definition with several children is that of the group of them.
pub proof fn law_definitions_group_their_children(
    name: Text,
    values: Seq<PatternModel>,
    ctx: ContextModel,
    mk: Markup,
)
    requires
        declared_by(ctx, mk),
        all_fit(values, ctx, mk),
        values.len() > 1,
        ncname(name),
        trimmed_already(name),
    ensures
        ({
            let e = tagged(
                "define"@,
                seq![set_to("name"@, name)],
                None,
                pattern_elements(values, mk, values.len()),
                mk,
            );
            xml_item_of(e, ctx) == Ok::<ItemModel, Text>(
                ItemModel::Define {
                    name,
                    combine: None,
                    body: seq![PatternModel::Group(values)],
                },
            )
        }),
{
    lemma_other_words();
    let e = tagged(
        "define"@,
        seq![set_to("name"@, name)],
        None,
        pattern_elements(values, mk, values.len()),
        mk,
    );
    let allowed = seq!["name"@, "combine"@];
    assert(allowed[0] == "name"@);
    lemma_one_attribute(e, "name"@, name, allowed);
    lemma_children_read(values, ctx, mk);
    assert(combine_of(e) == Ok::<Option<Combine>, Text>(None));
    assert(children_problem(e, allowed) is None);
    assert(required_name(e, "define name"@) == Ok::<Text, Text>(name));
}

/// A namespace that is given with a name is the name's, whatever is in force around it and
/// whether the name is that of an element or an attribute. An attribute without children has
/// any text.
pub proof fn law_explicit_namespaces_win(
    local: Text,
    uri: Text,
    body: Seq<PatternModel>,
    is_attribute: bool,
    ctx: ContextModel,
    mk: Markup,
)
    requires
        declared_by(ctx, mk),
        ncname(local),
        trimmed_already(local),
        trimmed_already(uri),
        body.len() == 1 || is_attribute && body.len() == 0,
        all_fit(body, with_ns(ctx, Some(uri)), mk),
    ensures
        ({
            let inner = with_ns(ctx, Some(uri));
            let name = NameModel::Name { lexical: local, namespace: Some(uri), context: inner };
            let attributes = seq![set_to("name"@, local), set_to("ns"@, uri)];
            let children = pattern_elements(body, mk, body.len());
            let element = tagged("element"@, attributes, None, children, mk);
            let attribute = tagged("attribute"@, attributes, None, children, mk);
            let class = tagged("name"@, seq![set_to("ns"@, uri)], Some(local), Seq::empty(), mk);
            &&& context_at(element, ctx) == Ok::<ContextModel, Text>(inner)
            &&& context_at(class, ctx) == Ok::<ContextModel, Text>(inner)
            &&& xml_name_class_of(class, inner) == Ok::<NameModel, Text>(name)
            &&& !is_attribute ==> xml_pattern_of(element, inner) == Ok::<PatternModel, Text>(
                PatternModel::Element { name, body, context: inner },
            )
            &&& is_attribute ==> xml_pattern_of(attribute, inner) == Ok::<PatternModel, Text>(
                PatternModel::Attribute {
                    name,
                    body: if body.len() == 0 {
                        seq![PatternModel::Text]
                    } else {
                        body
                    },
                    context: inner,
                },
            )
        }),
{
    lemma_words();
    lemma_other_words();
    let inner = with_ns(ctx, Some(uri));
    let attributes = seq![set_to("name"@, local), set_to("ns"@, uri)];
    let children = pattern_elements(body, mk, body.len());
    let element = tagged("element"@, attributes, None, children, mk);
    let attribute = tagged("attribute"@, attributes, None, children, mk);
    let class = tagged("name"@, seq![set_to("ns"@, uri)], Some(local), Seq::empty(), mk);
    let allowed = seq!["name"@];
    assert(allowed[0] == "name"@);
    lemma_two_attributes(element, "name"@, local, "ns"@, uri, allowed);
    lemma_two_attributes(attribute, "name"@, local, "ns"@, uri, allowed);
    lemma_one_attribute(class, "ns"@, uri, Seq::empty());
    lemma_context(element, ctx, Some(uri), mk);
    lemma_context(class, ctx, Some(uri), mk);
    lemma_children_read(body, inner, mk);
    assert(text_problem(class, Seq::empty()) is None);
}

/// What a schema element may not have is refused: an attribute of its own that it does not
/// know, children where it must have none, and no children where it must have some.
pub proof fn law_malformed_elements_are_refused(e: XmlModel, ctx: ContextModel, i: int)
    ensures
        0 <= i < e.attributes.len() && e.attributes[i].namespace is None && e.attributes[i].name
            != "ns"@ && e.attributes[i].name != "datatypeLibrary"@ ==> under("group"@, e, ctx)
            is Err && under("choice"@, e, ctx) is Err && under("empty"@, e, ctx) is Err && under(
            "text"@,
            e,
            ctx,
        ) is Err && under("notAllowed"@, e, ctx) is Err && (e.attributes[i].name != "name"@
            ==> under("element"@, e, ctx) is Err && under("attribute"@, e, ctx) is Err && under(
            "ref"@,
            e,
            ctx,
        ) is Err) && (e.attributes[i].name != "type"@ ==> under("data"@, e, ctx) is Err && under(
            "value"@,
            e,
            ctx,
        ) is Err),
        e.children.len() == 0 ==> under("group"@, e, ctx) is Err && under("choice"@, e, ctx) is Err,
        e.children.len() > 0 && e.children[0].namespace == Some(RNG_NAMESPACE@) ==> under(
            "empty"@,
            e,
            ctx,
        ) is Err && under("text"@, e, ctx) is Err && under("notAllowed"@, e, ctx) is Err && under(
            "ref"@,
            e,
            ctx,
        ) is Err && under("parentRef"@, e, ctx) is Err && under("externalRef"@, e, ctx) is Err
            && under("value"@, e, ctx) is Err,
{
    lemma_words();
    lemma_other_words();
    let none = Seq::<Text>::empty();
    if 0 <= i < e.attributes.len() && e.attributes[i].namespace is None && e.attributes[i].name
        != "ns"@ && e.attributes[i].name != "datatypeLibrary"@ {
        lemma_unknown(XmlModel { name: "group"@, ..e }, none, i, e.attributes.len());
        lemma_unknown(XmlModel { name: "choice"@, ..e }, none, i, e.attributes.len());
        lemma_unknown(XmlModel { name: "empty"@, ..e }, none, i, e.attributes.len());
        lemma_unknown(XmlModel { name: "text"@, ..e }, none, i, e.attributes.len());
        lemma_unknown(XmlModel { name: "notAllowed"@, ..e }, none, i, e.attributes.len());
        if e.attributes[i].name != "name"@ {
            let named = seq!["name"@];
            lemma_unknown(XmlModel { name: "element"@, ..e }, named, i, e.attributes.len());
            lemma_unknown(XmlModel { name: "attribute"@, ..e }, named, i, e.attributes.len());
            lemma_unknown(XmlModel { name: "ref"@, ..e }, named, i, e.attributes.len());
        }
        if e.attributes[i].name != "type"@ {
            let typed = seq!["type"@];
            lemma_unknown(XmlModel { name: "data"@, ..e }, typed, i, e.attributes.len());
            lemma_unknown(XmlModel { name: "value"@, ..e }, typed, i, e.attributes.len());
        }
    }
    assert(e.children.len() > 0 && in_rng(e.children[0]) ==> next_rng(e.children, 0) == 0);
}

/// An attribute that may not stand on an element is a problem.
proof fn lemma_unknown(e: XmlModel, allowed: Seq<Text>, i: int, n: nat)
    requires
        0 <= i < n <= e.attributes.len(),
        e.attributes[i].namespace is None,
        e.attributes[i].name != "ns"@,
        e.attributes[i].name != "datatypeLibrary"@,
        !allowed.contains(e.attributes[i].name),
    ensures
        unknown_attribute(e, allowed, n) is Some,
    decreases n,
{
    if i < n - 1 {
        lemma_unknown(e, allowed, i, (n - 1) as nat);
    }
}

} // verus!
