//! The XML syntax: from elements to patterns.
//!
//! Elements of other namespaces are annotations and are passed over, save where only text
//! may stand.
use vstd::prelude::*;

use crate::algebra::single;
use crate::grammar::{
    items_of, names_of, params_of, patterns_of, Combine, Context, ContextModel, Grammar,
    GrammarItem, GrammarModel, ItemModel, NameClass, NameModel, Param, ParamModel, Pattern,
    PatternModel, Root, RootModel, SchemaDocument,
};
use crate::resolver::SchemaSource;
use crate::string_map::{has_key, inserted, Duplicate, StringMap};
use crate::syntax::{
    datatype_library_uri, initial_context, is_valid_datatype_library_uri, is_valid_ncname,
    namespace_of, ncname, resolve_namespace, resolve_relative_reference, resolved_reference,
    starting_context, ParseError,
};
use crate::text::{
    concat2, concat3, concat4, copy_opt, copy_or_empty, from_chars, opt_text, or_empty, same,
    split_at_first, split_once, to_chars, trim, trimmed, trimmed_string, Text,
};
use crate::xml_tree::{
    elements_of, namespaces_of, parse_tree, xml_document, AttributeModel, XmlElement, XmlModel,
};

verus! {

/// The namespace of the elements that schemas consist of.
pub const RNG_NAMESPACE: &'static str = "http://relaxng.org/ns/structure/1.0";

/// The namespace of the `xml` prefix.
pub const XML_NAMESPACE: &'static str = "http://www.w3.org/XML/1998/namespace";

/// What a parsing function gives: what it read, or the message of an error.
pub type Parsed<T> = Result<T, Text>;

/// The model of a result.
pub open spec fn parsed<T: View>(r: Result<T, ParseError>) -> Parsed<T::V> {
    match r {
        Ok(value) => Ok(value@),
        Err(error) => Err(error@),
    }
}

/// The model of a result without a value.
pub open spec fn complaint(r: Result<(), ParseError>) -> Option<Text> {
    match r {
        Ok(_) => None,
        Err(error) => Some(error@),
    }
}

// ---------------------------------------------------------------------
// Attributes
// ---------------------------------------------------------------------

/// The value of an attribute, among the first `n`.
pub open spec fn attribute_value(
    attributes: Seq<AttributeModel>,
    namespace: Option<Text>,
    name: Text,
    n: nat,
) -> Option<Text>
    decreases n,
{
    if n == 0 || n > attributes.len() {
        None
    } else {
        match attribute_value(attributes, namespace, name, (n - 1) as nat) {
            Some(value) => Some(value),
            None => if attributes[n - 1].namespace == namespace && attributes[n - 1].name == name {
                Some(attributes[n - 1].value)
            } else {
                None
            },
        }
    }
}

/// The value of an attribute without a namespace, as it is written.
pub open spec fn plain_attribute(e: XmlModel, name: Text) -> Option<Text> {
    attribute_value(e.attributes, None, name, e.attributes.len())
}

/// The value of an attribute without a namespace, without white space at either end.
pub open spec fn token_attribute_of(e: XmlModel, name: Text) -> Option<Text> {
    match plain_attribute(e, name) {
        Some(value) => Some(trim(value)),
        None => None,
    }
}

/// A value that must be there.
pub open spec fn required_value(value: Option<Text>, name: Text) -> Parsed<Text> {
    match value {
        Some(v) => Ok(v),
        None => Err("missing required `"@ + name + "` attribute"@),
    }
}

/// The complaint about an element.
pub open spec fn tag_complaint(e: XmlModel, message: Text) -> Text {
    "`<"@ + e.name + ">` "@ + message
}

/// Whether an attribute may stand on an element: those of other namespaces always, and of
/// the others `ns`, `datatypeLibrary` and those that are listed.
pub open spec fn attribute_allowed(a: AttributeModel, allowed: Seq<Text>) -> bool {
    ||| a.namespace is Some && a.namespace->0 != RNG_NAMESPACE@
    ||| a.name == "ns"@
    ||| a.name == "datatypeLibrary"@
    ||| allowed.contains(a.name)
}

/// The complaint about the first attribute, among the first `n`, that may not stand there.
pub open spec fn unknown_attribute(e: XmlModel, allowed: Seq<Text>, n: nat) -> Option<Text>
    decreases n,
{
    if n == 0 || n > e.attributes.len() {
        None
    } else {
        match unknown_attribute(e, allowed, (n - 1) as nat) {
            Some(message) => Some(message),
            None => if attribute_allowed(e.attributes[n - 1], allowed) {
                None
            } else {
                Some(
                    tag_complaint(
                        e,
                        "does not allow a `"@ + e.attributes[n - 1].name + "` attribute"@,
                    ),
                )
            },
        }
    }
}

/// The complaint about attributes that may not stand there.
pub open spec fn unknown_attributes(e: XmlModel, allowed: Seq<Text>) -> Option<Text> {
    unknown_attribute(e, allowed, e.attributes.len())
}

/// The models of listed names.
pub open spec fn listed(s: Seq<&str>) -> Seq<Text> {
    Seq::new(s.len(), |i: int| s[i]@)
}

// ---------------------------------------------------------------------
// Children
// ---------------------------------------------------------------------

/// Whether an element belongs to schemas.
pub open spec fn in_rng(e: XmlModel) -> bool {
    e.namespace == Some(RNG_NAMESPACE@)
}

/// The first index from `i` on of a child that belongs to schemas, or the length.
pub open spec fn next_rng(children: Seq<XmlModel>, i: int) -> int
    decreases children.len() - i,
{
    if 0 <= i < children.len() && !in_rng(children[i]) {
        next_rng(children, i + 1)
    } else {
        i
    }
}

/// Whether any child belongs to schemas.
pub open spec fn has_rng(children: Seq<XmlModel>) -> bool {
    next_rng(children, 0) < children.len()
}

/// The complaint about an element that must have children.
pub open spec fn children_problem(e: XmlModel, allowed: Seq<Text>) -> Option<Text> {
    match unknown_attributes(e, allowed) {
        Some(message) => Some(message),
        None => if has_rng(e.children) {
            None
        } else {
            Some(tag_complaint(e, "requires at least one child"@))
        },
    }
}

/// The complaint about an element that must not have children.
pub open spec fn leaf_problem(e: XmlModel, allowed: Seq<Text>) -> Option<Text> {
    match unknown_attributes(e, allowed) {
        Some(message) => Some(message),
        None => if has_rng(e.children) {
            Some(tag_complaint(e, "must not have children"@))
        } else {
            None
        },
    }
}

/// The complaint about an element that may hold only text: it must not even have a child
/// of another namespace.
pub open spec fn text_problem(e: XmlModel, allowed: Seq<Text>) -> Option<Text> {
    match unknown_attributes(e, allowed) {
        Some(message) => Some(message),
        None => if e.children.len() > 0 {
            Some(tag_complaint(e, "must not have child elements"@))
        } else {
            None
        },
    }
}

// ---------------------------------------------------------------------
// Contexts
// ---------------------------------------------------------------------

/// The prefixes that the first `n` namespace declarations give.
pub open spec fn declared_prefixes(s: Seq<(Option<Text>, Text)>, n: nat) -> Seq<(Text, Text)>
    decreases n,
{
    if n == 0 || n > s.len() {
        Seq::empty()
    } else {
        let rest = declared_prefixes(s, (n - 1) as nat);
        match s[n - 1].0 {
            Some(prefix) => inserted(rest, prefix, s[n - 1].1),
            None => rest,
        }
    }
}

/// The default namespace that the first `n` namespace declarations give.
pub open spec fn declared_default(s: Seq<(Option<Text>, Text)>, n: nat) -> Option<Text>
    decreases n,
{
    if n == 0 || n > s.len() {
        None
    } else if s[n - 1].0 is None {
        Some(s[n - 1].1)
    } else {
        declared_default(s, (n - 1) as nat)
    }
}

/// The context of an element inside a context: its own namespaces, and its own datatype
/// library, namespace and base where it gives them.
pub open spec fn context_at(e: XmlModel, parent: ContextModel) -> Parsed<ContextModel> {
    let prefixes = declared_prefixes(e.namespaces, e.namespaces.len());
    let namespaces = if has_key(prefixes, "xml"@) {
        prefixes
    } else {
        inserted(prefixes, "xml"@, XML_NAMESPACE@)
    };
    let own_library = token_attribute_of(e, "datatypeLibrary"@);
    if own_library is Some && !datatype_library_uri(own_library->0) {
        Err(
            "`datatypeLibrary` must be an absolute URI with no fragment identifier, got `"@
                + own_library->0 + "`"@,
        )
    } else {
        Ok(
            ContextModel {
                base_uri: match attribute_value(
                    e.attributes,
                    Some(XML_NAMESPACE@),
                    "base"@,
                    e.attributes.len(),
                ) {
                    Some(value) => resolved_reference(parent.base_uri, trim(value)),
                    None => parent.base_uri,
                },
                namespaces,
                default_namespace: declared_default(e.namespaces, e.namespaces.len()),
                datatype_library: if own_library is Some {
                    own_library
                } else {
                    parent.datatype_library
                },
                ns: match token_attribute_of(e, "ns"@) {
                    Some(ns) => Some(ns),
                    None => parent.ns,
                },
            },
        )
    }
}

/// The namespace of a `value` or `nsName`: its own, or else the inherited one.
pub open spec fn inherited_ns(e: XmlModel, ctx: ContextModel) -> Option<Text> {
    match token_attribute_of(e, "ns"@) {
        Some(ns) => Some(ns),
        None => Some(or_empty(ctx.ns)),
    }
}

// ---------------------------------------------------------------------
// Name classes
// ---------------------------------------------------------------------

/// The local name and the namespace of a name: an explicit namespace wins, then the
/// prefix, and a name without one has the default.
pub open spec fn resolved_name(
    lexical: Text,
    explicit_ns: Option<Text>,
    unqualified_default: Option<Text>,
    ctx: ContextModel,
) -> Parsed<(Text, Option<Text>)> {
    if explicit_ns is Some {
        Ok((lexical, explicit_ns))
    } else {
        match split_once(lexical, ':') {
            Some((prefix, local)) => match namespace_of(
                ctx.namespaces,
                prefix,
                "unknown namespace prefix"@,
            ) {
                Ok(uri) => Ok((local, Some(uri))),
                Err(message) => Err(message),
            },
            None => Ok((lexical, Some(or_empty(unqualified_default)))),
        }
    }
}

/// The complaint about a text that is not a name.
pub open spec fn ncname_problem(value: Text, label: Text) -> Option<Text> {
    if ncname(value) {
        None
    } else {
        Some("`"@ + value + "` is not a valid "@ + label)
    }
}

/// A name class of one name, which must be a name.
pub open spec fn named_class(
    lexical: Text,
    explicit_ns: Option<Text>,
    unqualified_default: Option<Text>,
    ctx: ContextModel,
) -> Parsed<NameModel> {
    match resolved_name(lexical, explicit_ns, unqualified_default, ctx) {
        Err(message) => Err(message),
        Ok((local, namespace)) => match ncname_problem(local, "name"@) {
            Some(message) => Err(message),
            None => Ok(NameModel::Name { lexical: local, namespace, context: ctx }),
        },
    }
}

/// The first index from `i` on of an `except` child, or the length.
pub open spec fn next_except(children: Seq<XmlModel>, i: int) -> int
    decreases children.len() - i,
{
    if 0 <= i < children.len() && !(in_rng(children[i]) && children[i].name == "except"@) {
        next_except(children, i + 1)
    } else {
        i
    }
}

/// A name class.
pub open spec fn xml_name_class_of(e: XmlModel, ctx: ContextModel) -> Parsed<NameModel>
    decreases e, 1nat,
{
    if e.name == "name"@ {
        match text_problem(e, Seq::empty()) {
            Some(message) => Err(message),
            None => named_class(
                trim(or_empty(e.text)),
                token_attribute_of(e, "ns"@),
                ctx.ns,
                ctx,
            ),
        }
    } else if e.name == "anyName"@ {
        match unknown_attributes(e, Seq::empty()) {
            Some(message) => Err(message),
            None => match xml_except_names(e.children, e.name, ctx) {
                Err(message) => Err(message),
                Ok(except) => Ok(NameModel::Any { except, context: ctx }),
            },
        }
    } else if e.name == "nsName"@ {
        match unknown_attributes(e, seq!["ns"@]) {
            Some(message) => Err(message),
            None => match xml_except_names(e.children, e.name, ctx) {
                Err(message) => Err(message),
                Ok(except) => Ok(
                    NameModel::Namespace { namespace: inherited_ns(e, ctx), except, context: ctx },
                ),
            },
        }
    } else if e.name == "choice"@ {
        match children_problem(e, Seq::empty()) {
            Some(message) => Err(message),
            None => match xml_names_in(e.children, ctx, e.children.len()) {
                Err(message) => Err(message),
                Ok(options) => Ok(NameModel::Choice(options)),
            },
        }
    } else {
        Err("unsupported RELAX NG name class `"@ + e.name + "`"@)
    }
}

/// The exceptions of a wildcard name class: at most one `except` child gives them.
pub open spec fn xml_except_names(children: Seq<XmlModel>, name: Text, ctx: ContextModel) -> Parsed<
    Seq<NameModel>,
>
    decreases children, 0nat,
{
    let k = next_except(children, 0);
    if k < 0 || k >= children.len() {
        Ok(Seq::empty())
    } else if next_except(children, k + 1) < children.len() {
        Err("`"@ + name + "` may have at most one `except`"@)
    } else {
        match children_problem(children[k], Seq::empty()) {
            Some(message) => Err(message),
            None => xml_names_in(children[k].children, ctx, children[k].children.len()),
        }
    }
}

/// The name classes of the first `n` children that belong to schemas.
pub open spec fn xml_names_in(children: Seq<XmlModel>, ctx: ContextModel, n: nat) -> Parsed<
    Seq<NameModel>,
>
    decreases children, n,
{
    if n == 0 || n > children.len() {
        Ok(Seq::empty())
    } else {
        match xml_names_in(children, ctx, (n - 1) as nat) {
            Err(message) => Err(message),
            Ok(read) => if in_rng(children[n - 1]) {
                match context_at(children[n - 1], ctx) {
                    Err(message) => Err(message),
                    Ok(inner) => match xml_name_class_of(children[n - 1], inner) {
                        Err(message) => Err(message),
                        Ok(class) => Ok(read.push(class)),
                    },
                }
            } else {
                Ok(read)
            },
        }
    }
}

// ---------------------------------------------------------------------
// Patterns
// ---------------------------------------------------------------------

/// The patterns of the children that belong to schemas, from the child at `from` to the
/// `n`th.
pub open spec fn xml_patterns_in(
    children: Seq<XmlModel>,
    ctx: ContextModel,
    from: int,
    n: nat,
) -> Parsed<Seq<PatternModel>>
    decreases children, n,
{
    if n == 0 || n > children.len() {
        Ok(Seq::empty())
    } else {
        match xml_patterns_in(children, ctx, from, (n - 1) as nat) {
            Err(message) => Err(message),
            Ok(read) => if from <= n - 1 && in_rng(children[n - 1]) {
                match context_at(children[n - 1], ctx) {
                    Err(message) => Err(message),
                    Ok(inner) => match xml_pattern_of(children[n - 1], inner) {
                        Err(message) => Err(message),
                        Ok(pattern) => Ok(read.push(pattern)),
                    },
                }
            } else {
                Ok(read)
            },
        }
    }
}

/// The patterns of an element that must have children.
pub open spec fn xml_container(e: XmlModel, ctx: ContextModel) -> Parsed<Seq<PatternModel>>
    decreases e, 0nat,
{
    match children_problem(e, Seq::empty()) {
        Some(message) => Err(message),
        None => xml_patterns_in(e.children, ctx, 0, e.children.len()),
    }
}

/// The body of an `element`, which must not be empty, or of an `attribute`, which is one
/// pattern and `text` where none is given.
pub open spec fn finished_body(e: XmlModel, body: Seq<PatternModel>, is_attribute: bool) -> Parsed<
    Seq<PatternModel>,
> {
    if is_attribute && body.len() > 1 {
        Err("`<"@ + e.name + ">` must have at most one pattern child"@)
    } else if body.len() > 0 {
        Ok(body)
    } else if is_attribute {
        Ok(seq![PatternModel::Text])
    } else {
        Err("`<"@ + e.name + ">` requires at least one pattern child"@)
    }
}

/// The name class and the body of an `element` or `attribute`. The name class is given by
/// the attribute `name` or by the first child; the former does not inherit a namespace on
/// an `attribute`.
pub open spec fn xml_named(e: XmlModel, ctx: ContextModel, is_attribute: bool) -> Parsed<
    (NameModel, Seq<PatternModel>),
>
    decreases e, 0nat,
{
    match unknown_attributes(e, seq!["name"@]) {
        Some(message) => Err(message),
        None => match token_attribute_of(e, "name"@) {
            Some(name) => match named_class(
                name,
                token_attribute_of(e, "ns"@),
                if is_attribute {
                    Some(Seq::empty())
                } else {
                    ctx.ns
                },
                ctx,
            ) {
                Err(message) => Err(message),
                Ok(class) => match xml_patterns_in(e.children, ctx, 0, e.children.len()) {
                    Err(message) => Err(message),
                    Ok(read) => match finished_body(e, read, is_attribute) {
                        Err(message) => Err(message),
                        Ok(body) => Ok((class, body)),
                    },
                },
            },
            None => {
                let k = next_rng(e.children, 0);
                if k < 0 || k >= e.children.len() {
                    Err("element or attribute requires a name class"@)
                } else {
                    match context_at(e.children[k], ctx) {
                        Err(message) => Err(message),
                        Ok(inner) => match xml_name_class_of(e.children[k], inner) {
                            Err(message) => Err(message),
                            Ok(class) => match xml_patterns_in(
                                e.children,
                                ctx,
                                k + 1,
                                e.children.len(),
                            ) {
                                Err(message) => Err(message),
                                Ok(read) => match finished_body(e, read, is_attribute) {
                                    Err(message) => Err(message),
                                    Ok(body) => Ok((class, body)),
                                },
                            },
                        },
                    }
                }
            },
        },
    }
}

/// A reference by the attribute `name`, which must be a name.
pub open spec fn required_name(e: XmlModel, label: Text) -> Parsed<Text> {
    match required_value(token_attribute_of(e, "name"@), "name"@) {
        Err(message) => Err(message),
        Ok(name) => match ncname_problem(name, label) {
            Some(message) => Err(message),
            None => Ok(name),
        },
    }
}

/// The parameters among the first `n` children of a `data`.
pub open spec fn xml_params_in(children: Seq<XmlModel>, ctx: ContextModel, n: nat) -> Parsed<
    Seq<ParamModel>,
>
    decreases n,
{
    if n == 0 || n > children.len() {
        Ok(Seq::empty())
    } else {
        match xml_params_in(children, ctx, (n - 1) as nat) {
            Err(message) => Err(message),
            Ok(read) => if in_rng(children[n - 1]) && children[n - 1].name == "param"@ {
                match xml_param(children[n - 1], ctx) {
                    Err(message) => Err(message),
                    Ok(param) => Ok(read.push(param)),
                }
            } else {
                Ok(read)
            },
        }
    }
}

/// A parameter of a datatype.
pub open spec fn xml_param(e: XmlModel, ctx: ContextModel) -> Parsed<ParamModel> {
    match text_problem(e, seq!["name"@]) {
        Some(message) => Err(message),
        None => match required_value(plain_attribute(e, "name"@), "name"@) {
            Err(message) => Err(message),
            Ok(name) => match context_at(e, ctx) {
                Err(message) => Err(message),
                Ok(context) => Ok(ParamModel { name, value: or_empty(e.text), context }),
            },
        },
    }
}

/// The exceptions of a `data`: at most one `except` child gives them.
pub open spec fn xml_except_patterns(children: Seq<XmlModel>, ctx: ContextModel) -> Parsed<
    Seq<PatternModel>,
>
    decreases children, 0nat,
{
    let k = next_except(children, 0);
    if k < 0 || k >= children.len() {
        Ok(Seq::empty())
    } else if next_except(children, k + 1) < children.len() {
        Err("`<data>` may have at most one `except`"@)
    } else {
        match children_problem(children[k], Seq::empty()) {
            Some(message) => Err(message),
            None => xml_patterns_in(children[k].children, ctx, 0, children[k].children.len()),
        }
    }
}

/// A datatype with its parameters and exceptions.
pub open spec fn xml_data(e: XmlModel, ctx: ContextModel) -> Parsed<PatternModel>
    decreases e, 0nat,
{
    match unknown_attributes(e, seq!["type"@]) {
        Some(message) => Err(message),
        None => match xml_params_in(e.children, ctx, e.children.len()) {
            Err(message) => Err(message),
            Ok(params) => match xml_except_patterns(e.children, ctx) {
                Err(message) => Err(message),
                Ok(except) => match required_value(token_attribute_of(e, "type"@), "type"@) {
                    Err(message) => Err(message),
                    Ok(datatype) => Ok(
                        PatternModel::Data {
                            datatype,
                            datatype_library: ctx.datatype_library,
                            params,
                            except,
                            context: ctx,
                        },
                    ),
                },
            },
        },
    }
}

/// A value. Without a type it is compared as a built-in `token`.
pub open spec fn xml_value(e: XmlModel, ctx: ContextModel) -> Parsed<PatternModel> {
    match text_problem(e, seq!["type"@]) {
        Some(message) => Err(message),
        None => {
            let datatype = token_attribute_of(e, "type"@);
            Ok(
                PatternModel::Value {
                    value: or_empty(e.text),
                    datatype,
                    datatype_library: if datatype is Some {
                        ctx.datatype_library
                    } else {
                        None
                    },
                    namespace: inherited_ns(e, ctx),
                    context: ctx,
                },
            )
        },
    }
}

/// A pattern without parts, which must not have children.
pub open spec fn xml_leaf(e: XmlModel, pattern: PatternModel) -> Parsed<PatternModel> {
    match leaf_problem(e, Seq::empty()) {
        Some(message) => Err(message),
        None => Ok(pattern),
    }
}

/// A pattern.
pub open spec fn xml_pattern_of(e: XmlModel, ctx: ContextModel) -> Parsed<PatternModel>
    decreases e, 2nat,
{
    if e.name == "element"@ {
        match xml_named(e, ctx, false) {
            Err(message) => Err(message),
            Ok((name, body)) => Ok(PatternModel::Element { name, body, context: ctx }),
        }
    } else if e.name == "attribute"@ {
        match xml_named(e, ctx, true) {
            Err(message) => Err(message),
            Ok((name, body)) => Ok(PatternModel::Attribute { name, body, context: ctx }),
        }
    } else if e.name == "group"@ {
        match xml_container(e, ctx) {
            Err(message) => Err(message),
            Ok(values) => Ok(PatternModel::Group(values)),
        }
    } else if e.name == "interleave"@ {
        match xml_container(e, ctx) {
            Err(message) => Err(message),
            Ok(values) => Ok(PatternModel::Interleave(values)),
        }
    } else if e.name == "choice"@ {
        match xml_container(e, ctx) {
            Err(message) => Err(message),
            Ok(values) => Ok(PatternModel::Choice(values)),
        }
    } else if e.name == "optional"@ {
        match xml_container(e, ctx) {
            Err(message) => Err(message),
            Ok(values) => Ok(PatternModel::Optional(values)),
        }
    } else if e.name == "zeroOrMore"@ {
        match xml_container(e, ctx) {
            Err(message) => Err(message),
            Ok(values) => Ok(PatternModel::ZeroOrMore(values)),
        }
    } else if e.name == "oneOrMore"@ {
        match xml_container(e, ctx) {
            Err(message) => Err(message),
            Ok(values) => Ok(PatternModel::OneOrMore(values)),
        }
    } else if e.name == "list"@ {
        match xml_container(e, ctx) {
            Err(message) => Err(message),
            Ok(values) => Ok(PatternModel::List(values)),
        }
    } else if e.name == "mixed"@ {
        match xml_container(e, ctx) {
            Err(message) => Err(message),
            Ok(values) => Ok(PatternModel::Mixed(values)),
        }
    } else if e.name == "empty"@ {
        xml_leaf(e, PatternModel::Empty)
    } else if e.name == "notAllowed"@ {
        xml_leaf(e, PatternModel::NotAllowed)
    } else if e.name == "text"@ {
        xml_leaf(e, PatternModel::Text)
    } else if e.name == "ref"@ {
        match leaf_problem(e, seq!["name"@]) {
            Some(message) => Err(message),
            None => match required_name(e, "ref name"@) {
                Err(message) => Err(message),
                Ok(name) => Ok(PatternModel::Ref(name)),
            },
        }
    } else if e.name == "parentRef"@ {
        match leaf_problem(e, seq!["name"@]) {
            Some(message) => Err(message),
            None => match required_name(e, "parentRef name"@) {
                Err(message) => Err(message),
                Ok(name) => Ok(PatternModel::ParentRef(name)),
            },
        }
    } else if e.name == "externalRef"@ {
        match leaf_problem(e, seq!["href"@]) {
            Some(message) => Err(message),
            None => match required_value(plain_attribute(e, "href"@), "href"@) {
                Err(message) => Err(message),
                Ok(href) => Ok(
                    PatternModel::ExternalRef {
                        href,
                        inherit_namespace: token_attribute_of(e, "ns"@),
                        context: ctx,
                    },
                ),
            },
        }
    } else if e.name == "grammar"@ {
        match xml_grammar_of(e, ctx) {
            Err(message) => Err(message),
            Ok(grammar) => Ok(PatternModel::Grammar(grammar)),
        }
    } else if e.name == "data"@ {
        xml_data(e, ctx)
    } else if e.name == "value"@ {
        xml_value(e, ctx)
    } else {
        Err("unsupported RELAX NG pattern `"@ + e.name + "`"@)
    }
}

// ---------------------------------------------------------------------
// Grammars
// ---------------------------------------------------------------------

/// How definitions combine.
pub open spec fn combine_of(e: XmlModel) -> Parsed<Option<Combine>> {
    match token_attribute_of(e, "combine"@) {
        None => Ok(None),
        Some(value) => if value == "choice"@ {
            Ok(Some(Combine::Choice))
        } else if value == "interleave"@ {
            Ok(Some(Combine::Interleave))
        } else {
            Err("unknown combine value `"@ + value + "`"@)
        },
    }
}

/// The body of a `define`: more than one pattern form a group.
pub open spec fn grouped(body: Seq<PatternModel>) -> Seq<PatternModel> {
    if body.len() > 1 {
        seq![PatternModel::Group(body)]
    } else {
        body
    }
}

/// A grammar component.
pub open spec fn xml_item_of(e: XmlModel, ctx: ContextModel) -> Parsed<ItemModel>
    decreases e, 0nat,
{
    if e.name == "start"@ {
        match children_problem(e, seq!["combine"@]) {
            Some(message) => Err(message),
            None => match xml_patterns_in(e.children, ctx, 0, e.children.len()) {
                Err(message) => Err(message),
                Ok(body) => if body.len() > 1 {
                    Err("`<start>` must have at most one pattern child"@)
                } else {
                    match combine_of(e) {
                        Err(message) => Err(message),
                        Ok(combine) => Ok(ItemModel::Start { combine, body }),
                    }
                },
            },
        }
    } else if e.name == "define"@ {
        match children_problem(e, seq!["name"@, "combine"@]) {
            Some(message) => Err(message),
            None => match required_name(e, "define name"@) {
                Err(message) => Err(message),
                Ok(name) => match combine_of(e) {
                    Err(message) => Err(message),
                    Ok(combine) => match xml_patterns_in(e.children, ctx, 0, e.children.len()) {
                        Err(message) => Err(message),
                        Ok(body) => Ok(
                            ItemModel::Define { name, combine, body: grouped(body) },
                        ),
                    },
                },
            },
        }
    } else if e.name == "div"@ {
        match unknown_attributes(e, Seq::empty()) {
            Some(message) => Err(message),
            None => match xml_items_in(e.children, ctx, e.children.len()) {
                Err(message) => Err(message),
                Ok(items) => Ok(ItemModel::Div(items)),
            },
        }
    } else if e.name == "include"@ {
        match unknown_attributes(e, seq!["href"@]) {
            Some(message) => Err(message),
            None => match required_value(plain_attribute(e, "href"@), "href"@) {
                Err(message) => Err(message),
                Ok(href) => match xml_items_in(e.children, ctx, e.children.len()) {
                    Err(message) => Err(message),
                    Ok(body) => Ok(
                        ItemModel::Include {
                            href,
                            inherit_namespace: token_attribute_of(e, "ns"@),
                            body,
                            context: ctx,
                        },
                    ),
                },
            },
        }
    } else {
        Err("unsupported RELAX NG grammar item `"@ + e.name + "`"@)
    }
}

/// The components among the first `n` children.
pub open spec fn xml_items_in(children: Seq<XmlModel>, ctx: ContextModel, n: nat) -> Parsed<
    Seq<ItemModel>,
>
    decreases children, n,
{
    if n == 0 || n > children.len() {
        Ok(Seq::empty())
    } else {
        match xml_items_in(children, ctx, (n - 1) as nat) {
            Err(message) => Err(message),
            Ok(read) => if in_rng(children[n - 1]) {
                match context_at(children[n - 1], ctx) {
                    Err(message) => Err(message),
                    Ok(inner) => match xml_item_of(children[n - 1], inner) {
                        Err(message) => Err(message),
                        Ok(item) => Ok(read.push(item)),
                    },
                }
            } else {
                Ok(read)
            },
        }
    }
}

/// A grammar.
pub open spec fn xml_grammar_of(e: XmlModel, ctx: ContextModel) -> Parsed<GrammarModel>
    decreases e, 1nat,
{
    match unknown_attributes(e, Seq::empty()) {
        Some(message) => Err(message),
        None => match xml_items_in(e.children, ctx, e.children.len()) {
            Err(message) => Err(message),
            Ok(items) => Ok(GrammarModel { context: ctx, items }),
        },
    }
}

/// What a schema says whose outermost element is given.
pub open spec fn xml_root(root: XmlModel, base_uri: Text, inherited: Option<Text>) -> Parsed<
    RootModel,
> {
    if !in_rng(root) {
        Err("schema root must use the RELAX NG namespace"@)
    } else {
        match context_at(root, starting_context(base_uri, Some(Seq::empty()), inherited)) {
            Err(message) => Err(message),
            Ok(ctx) => if root.name == "grammar"@ {
                match xml_grammar_of(root, ctx) {
                    Err(message) => Err(message),
                    Ok(grammar) => Ok(RootModel::Grammar(grammar)),
                }
            } else {
                match xml_pattern_of(root, ctx) {
                    Err(message) => Err(message),
                    Ok(pattern) => Ok(RootModel::Pattern(pattern)),
                }
            },
        }
    }
}

/// What a schema in the XML syntax says.
pub open spec fn xml_schema(text: Text, base_uri: Text, inherited: Option<Text>) -> Parsed<
    RootModel,
> {
    match xml_document(text) {
        Err(message) => Err("invalid XML schema: "@ + message),
        Ok(root) => xml_root(root, base_uri, inherited),
    }
}

// ---------------------------------------------------------------------
// The functions: attributes and children
// ---------------------------------------------------------------------

/// The first value found stays the value.
proof fn lemma_attribute_first(
    attributes: Seq<AttributeModel>,
    namespace: Option<Text>,
    name: Text,
    n: nat,
)
    requires
        n <= attributes.len(),
        attribute_value(attributes, namespace, name, n) is Some,
    ensures
        attribute_value(attributes, namespace, name, attributes.len()) == attribute_value(
            attributes,
            namespace,
            name,
            n,
        ),
    decreases attributes.len() - n,
{
    if n < attributes.len() {
        lemma_attribute_first(attributes, namespace, name, n + 1);
    }
}

/// The value of an attribute without a namespace, as it is written.
fn attribute(node: &XmlElement, name: &str) -> (r: Option<String>)
    ensures
        opt_text(r) == plain_attribute(node@, name@),
{
    let mut i: usize = 0;
    while i < node.attributes.len()
        invariant
            i <= node.attributes@.len(),
            attribute_value(node@.attributes, None, name@, i as nat) is None,
        decreases node.attributes.len() - i,
    {
        let attribute = &node.attributes[i];
        assert(node@.attributes[i as int] == attribute@);
        if attribute.namespace.is_none() && same(attribute.name.as_str(), name) {
            proof {
                lemma_attribute_first(node@.attributes, None, name@, (i + 1) as nat);
            }
            return Some(attribute.value.clone());
        }
        i += 1;
    }
    None
}

/// The value of the attribute `xml:base`.
fn base_attribute(node: &XmlElement) -> (r: Option<String>)
    ensures
        opt_text(r) == attribute_value(
            node@.attributes,
            Some(XML_NAMESPACE@),
            "base"@,
            node@.attributes.len(),
        ),
{
    let ghost namespace = Some(XML_NAMESPACE@);
    let mut i: usize = 0;
    while i < node.attributes.len()
        invariant
            i <= node.attributes@.len(),
            namespace == Some(XML_NAMESPACE@),
            attribute_value(node@.attributes, namespace, "base"@, i as nat) is None,
        decreases node.attributes.len() - i,
    {
        let attribute = &node.attributes[i];
        assert(node@.attributes[i as int] == attribute@);
        let in_xml = match &attribute.namespace {
            Some(uri) => same(uri.as_str(), XML_NAMESPACE),
            None => false,
        };
        if in_xml && same(attribute.name.as_str(), "base") {
            proof {
                lemma_attribute_first(node@.attributes, namespace, "base"@, (i + 1) as nat);
            }
            return Some(attribute.value.clone());
        }
        i += 1;
    }
    None
}

/// The value of an attribute without a namespace, without white space at either end, as
/// `name`, `ns`, `combine` and the like are read.
fn token_attribute(node: &XmlElement, name: &str) -> (r: Option<String>)
    ensures
        opt_text(r) == token_attribute_of(node@, name@),
{
    match attribute(node, name) {
        Some(value) => Some(trimmed_string(value.as_str())),
        None => None,
    }
}

/// A value that must be there.
fn require_attribute_value(value: Option<String>, name: &str) -> (r: Result<String, ParseError>)
    ensures
        parsed(r) == required_value(opt_text(value), name@),
{
    match value {
        Some(value) => Ok(value),
        None => Err(
            ParseError::from_string(concat3("missing required `", name, "` attribute")),
        ),
    }
}

/// The error about an element.
fn tag_error(node: &XmlElement, message: &str) -> (r: ParseError)
    ensures
        r@ == tag_complaint(node@, message@),
{
    ParseError::from_string(concat4("`<", node.name.as_str(), ">` ", message))
}

/// The first complaint of a prefix is that of all.
proof fn lemma_unknown_first(e: XmlModel, allowed: Seq<Text>, n: nat)
    requires
        n <= e.attributes.len(),
        unknown_attribute(e, allowed, n) is Some,
    ensures
        unknown_attributes(e, allowed) == unknown_attribute(e, allowed, n),
    decreases e.attributes.len() - n,
{
    if n < e.attributes.len() {
        lemma_unknown_first(e, allowed, n + 1);
    }
}

/// Rejects any attribute that may not stand on an element: one of another namespace is an
/// annotation and always may, one that is explicitly in the namespace of schemas is
/// checked like one without a namespace.
fn reject_unknown_attributes(node: &XmlElement, allowed: &[&str]) -> (r: Result<(), ParseError>)
    ensures
        complaint(r) == unknown_attributes(node@, listed(allowed@)),
{
    let ghost names = listed(allowed@);
    let mut i: usize = 0;
    while i < node.attributes.len()
        invariant
            i <= node.attributes@.len(),
            names == listed(allowed@),
            unknown_attribute(node@, names, i as nat) is None,
        decreases node.attributes.len() - i,
    {
        let attribute = &node.attributes[i];
        assert(node@.attributes[i as int] == attribute@);
        let name = attribute.name.as_str();
        let is_foreign = match &attribute.namespace {
            Some(namespace) => !same(namespace.as_str(), RNG_NAMESPACE),
            None => false,
        };
        let mut is_listed: bool = false;
        let mut j: usize = 0;
        while j < allowed.len()
            invariant
                j <= allowed@.len(),
                names == listed(allowed@),
                is_listed ==> names.contains(name@),
                !is_listed ==> forall|k: int| 0 <= k < j ==> #[trigger] names[k] != name@,
            decreases allowed.len() - j,
        {
            if same(allowed[j], name) {
                assert(names[j as int] == name@);
                is_listed = true;
            }
            j += 1;
        }
        assert(is_listed == names.contains(name@));
        if !(is_foreign || same(name, "ns") || same(name, "datatypeLibrary") || is_listed) {
            proof {
                lemma_unknown_first(node@, names, (i + 1) as nat);
            }
            let message = concat3("does not allow a `", name, "` attribute");
            return Err(tag_error(node, message.as_str()));
        }
        i += 1;
    }
    Ok(())
}

/// Whether an element belongs to schemas.
fn is_rng(node: &XmlElement) -> (r: bool)
    ensures
        r == in_rng(node@),
{
    match &node.namespace {
        Some(namespace) => same(namespace.as_str(), RNG_NAMESPACE),
        None => false,
    }
}

/// The first index of a child that belongs to schemas, or the number of children.
fn first_rng_child(children: &Vec<XmlElement>) -> (r: usize)
    ensures
        r == next_rng(elements_of(children@), 0),
        r <= children@.len(),
{
    let mut i: usize = 0;
    while i < children.len() && !is_rng(&children[i])
        invariant
            i <= children@.len(),
            next_rng(elements_of(children@), 0) == next_rng(elements_of(children@), i as int),
        decreases children.len() - i,
    {
        i += 1;
    }
    i
}

/// The first index from `start` on of an `except` child, or the number of children.
fn first_except_child(children: &Vec<XmlElement>, start: usize) -> (r: usize)
    requires
        start <= children@.len(),
    ensures
        r == next_except(elements_of(children@), start as int),
        start <= r <= children@.len(),
{
    let mut i: usize = start;
    while i < children.len() && !(is_rng(&children[i]) && same(
        children[i].name.as_str(),
        "except",
    ))
        invariant
            start <= i <= children@.len(),
            next_except(elements_of(children@), start as int) == next_except(
                elements_of(children@),
                i as int,
            ),
        decreases children.len() - i,
    {
        i += 1;
    }
    i
}

/// Checks an element that must have children.
fn require_children(node: &XmlElement, allowed: &[&str]) -> (r: Result<(), ParseError>)
    ensures
        complaint(r) == children_problem(node@, listed(allowed@)),
{
    let checked = reject_unknown_attributes(node, allowed);
    if checked.is_err() {
        return checked;
    }
    proof {
        node.lemma_model();
    }
    if first_rng_child(&node.children) < node.children.len() {
        Ok(())
    } else {
        Err(tag_error(node, "requires at least one child"))
    }
}

/// Checks an element that must not have children.
fn require_no_children(node: &XmlElement, allowed: &[&str]) -> (r: Result<(), ParseError>)
    ensures
        complaint(r) == leaf_problem(node@, listed(allowed@)),
{
    let checked = reject_unknown_attributes(node, allowed);
    if checked.is_err() {
        return checked;
    }
    proof {
        node.lemma_model();
    }
    if first_rng_child(&node.children) < node.children.len() {
        Err(tag_error(node, "must not have children"))
    } else {
        Ok(())
    }
}

/// Checks an element that may hold only text.
fn require_no_child_elements(node: &XmlElement, allowed: &[&str]) -> (r: Result<(), ParseError>)
    ensures
        complaint(r) == text_problem(node@, listed(allowed@)),
{
    let checked = reject_unknown_attributes(node, allowed);
    if checked.is_err() {
        return checked;
    }
    proof {
        node.lemma_model();
    }
    if node.children.len() > 0 {
        Err(tag_error(node, "must not have child elements"))
    } else {
        Ok(())
    }
}

// ---------------------------------------------------------------------
// The functions: contexts and names
// ---------------------------------------------------------------------

/// The context of an element inside a context; see [`context_at`].
fn xml_context(node: &XmlElement, parent: &Context) -> (r: Result<Context, ParseError>)
    ensures
        parsed(r) == context_at(node@, parent@),
{
    let mut namespaces: StringMap<String> = StringMap::new();
    let mut default_namespace: Option<String> = None;
    let ghost declared = node@.namespaces;
    let mut i: usize = 0;
    while i < node.namespaces.len()
        invariant
            i <= node.namespaces@.len(),
            declared == namespaces_of(node.namespaces@),
            namespaces@ == declared_prefixes(declared, i as nat),
            opt_text(default_namespace) == declared_default(declared, i as nat),
        decreases node.namespaces.len() - i,
    {
        let namespace = &node.namespaces[i];
        assert(declared[i as int] == (opt_text(namespace.prefix), namespace.uri@));
        match &namespace.prefix {
            Some(prefix) => {
                namespaces.insert(prefix.clone(), namespace.uri.clone());
            },
            None => {
                default_namespace = Some(namespace.uri.clone());
            },
        }
        i += 1;
    }
    if !namespaces.contains_key("xml") {
        namespaces.insert("xml".to_owned(), XML_NAMESPACE.to_owned());
    }
    let datatype_library = match token_attribute(node, "datatypeLibrary") {
        Some(value) => {
            if !is_valid_datatype_library_uri(value.as_str()) {
                return Err(
                    ParseError::from_string(
                        concat3(
                            "`datatypeLibrary` must be an absolute URI with no fragment identifier, got `",
                            value.as_str(),
                            "`",
                        ),
                    ),
                );
            }
            Some(value)
        },
        None => copy_opt(&parent.datatype_library),
    };
    let ns = match token_attribute(node, "ns") {
        Some(value) => Some(value),
        None => copy_opt(&parent.ns),
    };
    let base_uri = match base_attribute(node) {
        Some(value) => {
            let chars = to_chars(value.as_str());
            resolve_relative_reference(parent.base_uri.as_str(), trimmed(chars.as_slice()))
        },
        None => parent.base_uri.clone(),
    };
    Ok(Context { base_uri, namespaces, default_namespace, datatype_library, ns })
}

/// The namespace of a `value` or `nsName`: its own, or else the inherited one.
fn inherited_ns_attribute(node: &XmlElement, context: &Context) -> (r: Option<String>)
    ensures
        opt_text(r) == inherited_ns(node@, context@),
{
    match token_attribute(node, "ns") {
        Some(value) => Some(value),
        None => Some(copy_or_empty(&context.ns)),
    }
}

/// Resolves a name; see [`resolved_name`].
fn resolve_name_lexical(
    lexical: String,
    explicit_ns: Option<String>,
    unqualified_default: Option<String>,
    context: &Context,
) -> (r: Result<(String, Option<String>), ParseError>)
    ensures
        match r {
            Ok((local, namespace)) => resolved_name(
                lexical@,
                opt_text(explicit_ns),
                opt_text(unqualified_default),
                context@,
            ) == Ok::<(Text, Option<Text>), Text>((local@, opt_text(namespace))),
            Err(error) => resolved_name(
                lexical@,
                opt_text(explicit_ns),
                opt_text(unqualified_default),
                context@,
            ) == Err::<(Text, Option<Text>), Text>(error@),
        },
{
    if explicit_ns.is_some() {
        return Ok((lexical, explicit_ns));
    }
    let chars = to_chars(lexical.as_str());
    match split_at_first(chars.as_slice(), ':') {
        Some((prefix, local)) => {
            let prefix = from_chars(prefix);
            match resolve_namespace(
                &context.namespaces,
                prefix.as_str(),
                "unknown namespace prefix",
            ) {
                Ok(uri) => Ok((from_chars(local), Some(uri))),
                Err(error) => Err(error),
            }
        },
        None => Ok((lexical, Some(copy_or_empty(&unqualified_default)))),
    }
}

/// Checks that a text is a name.
fn require_ncname(value: &str, label: &str) -> (r: Result<(), ParseError>)
    ensures
        complaint(r) == ncname_problem(value@, label@),
{
    if is_valid_ncname(value) {
        Ok(())
    } else {
        Err(ParseError::from_string(concat4("`", value, "` is not a valid ", label)))
    }
}

/// The attribute `name`, which must be there and be a name.
fn required_ncname_attribute(node: &XmlElement, label: &str) -> (r: Result<String, ParseError>)
    ensures
        parsed(r) == required_name(node@, label@),
{
    match require_attribute_value(token_attribute(node, "name"), "name") {
        Err(error) => Err(error),
        Ok(name) => match require_ncname(name.as_str(), label) {
            Err(error) => Err(error),
            Ok(_) => Ok(name),
        },
    }
}

/// A name class of one name; see [`named_class`].
fn one_name(
    lexical: String,
    explicit_ns: Option<String>,
    unqualified_default: Option<String>,
    context: &Context,
) -> (r: Result<NameClass, ParseError>)
    ensures
        parsed(r) == named_class(
            lexical@,
            opt_text(explicit_ns),
            opt_text(unqualified_default),
            context@,
        ),
{
    match resolve_name_lexical(lexical, explicit_ns, unqualified_default, context) {
        Err(error) => Err(error),
        Ok((local, namespace)) => match require_ncname(local.as_str(), "name") {
            Err(error) => Err(error),
            Ok(_) => {
                let class = NameClass::Name {
                    lexical: local,
                    namespace,
                    context: context.duplicate(),
                };
                proof {
                    class.lemma_model();
                }
                Ok(class)
            },
        },
    }
}

/// Whether a result is the name classes stated.
spec fn gives_names(r: Result<Vec<NameClass>, ParseError>, want: Parsed<Seq<NameModel>>) -> bool {
    match r {
        Ok(classes) => want == Ok::<Seq<NameModel>, Text>(names_of(classes@)),
        Err(error) => want == Err::<Seq<NameModel>, Text>(error@),
    }
}

/// Reads a name class; see [`xml_name_class_of`].
fn xml_name_class(node: &XmlElement, context: &Context) -> (r: Result<NameClass, ParseError>)
    ensures
        parsed(r) == xml_name_class_of(node@, context@),
    decreases node, 1nat,
{
    proof {
        node.lemma_model();
    }
    let name = node.name.as_str();
    if same(name, "name") {
        let allowed: [&str; 0] = [];
        assert(listed(allowed@) =~= Seq::<Text>::empty());
        match require_no_child_elements(node, &allowed) {
            Err(error) => {
                return Err(error);
            },
            Ok(_) => {},
        }
        let text = copy_or_empty(&node.text);
        let raw = trimmed_string(text.as_str());
        return one_name(raw, token_attribute(node, "ns"), copy_opt(&context.ns), context);
    }
    if same(name, "anyName") {
        let allowed: [&str; 0] = [];
        assert(listed(allowed@) =~= Seq::<Text>::empty());
        match reject_unknown_attributes(node, &allowed) {
            Err(error) => {
                return Err(error);
            },
            Ok(_) => {},
        }
        return match xml_name_except(&node.children, name, context) {
            Err(error) => Err(error),
            Ok(except) => {
                let class = NameClass::Any { except, context: context.duplicate() };
                proof {
                    class.lemma_model();
                }
                Ok(class)
            },
        };
    }
    if same(name, "nsName") {
        let allowed = ["ns"];
        assert(listed(allowed@) =~= seq!["ns"@]);
        match reject_unknown_attributes(node, &allowed) {
            Err(error) => {
                return Err(error);
            },
            Ok(_) => {},
        }
        return match xml_name_except(&node.children, name, context) {
            Err(error) => Err(error),
            Ok(except) => {
                let class = NameClass::Namespace {
                    namespace: inherited_ns_attribute(node, context),
                    except,
                    context: context.duplicate(),
                };
                proof {
                    class.lemma_model();
                }
                Ok(class)
            },
        };
    }
    if same(name, "choice") {
        let allowed: [&str; 0] = [];
        assert(listed(allowed@) =~= Seq::<Text>::empty());
        match require_children(node, &allowed) {
            Err(error) => {
                return Err(error);
            },
            Ok(_) => {},
        }
        return match xml_name_class_seq(&node.children, context) {
            Err(error) => Err(error),
            Ok(options) => {
                let class = NameClass::Choice(options);
                proof {
                    class.lemma_model();
                }
                Ok(class)
            },
        };
    }
    Err(ParseError::from_string(concat3("unsupported RELAX NG name class `", name, "`")))
}

/// Reads the exceptions of a wildcard name class; see [`xml_except_names`].
fn xml_name_except(children: &Vec<XmlElement>, name: &str, context: &Context) -> (r: Result<
    Vec<NameClass>,
    ParseError,
>)
    ensures
        gives_names(r, xml_except_names(elements_of(children@), name@, context@)),
    decreases children, 0nat,
{
    let k = first_except_child(children, 0);
    if k >= children.len() {
        let none: Vec<NameClass> = Vec::new();
        assert(names_of(none@) =~= Seq::<NameModel>::empty());
        return Ok(none);
    }
    if first_except_child(children, k + 1) < children.len() {
        return Err(
            ParseError::from_string(concat3("`", name, "` may have at most one `except`")),
        );
    }
    let only = &children[k];
    let allowed: [&str; 0] = [];
    assert(listed(allowed@) =~= Seq::<Text>::empty());
    match require_children(only, &allowed) {
        Err(error) => {
            return Err(error);
        },
        Ok(_) => {},
    }
    proof {
        only.lemma_model();
    }
    xml_name_class_seq(&only.children, context)
}

/// Reads the name classes of the children that belong to schemas; see [`xml_names_in`].
fn xml_name_class_seq(children: &Vec<XmlElement>, context: &Context) -> (r: Result<
    Vec<NameClass>,
    ParseError,
>)
    ensures
        gives_names(r, xml_names_in(elements_of(children@), context@, children@.len())),
    decreases children, 0nat,
{
    let ghost models = elements_of(children@);
    let mut out: Vec<NameClass> = Vec::new();
    let mut i: usize = 0;
    assert(names_of(out@) =~= Seq::<NameModel>::empty());
    while i < children.len()
        invariant
            i <= children@.len(),
            models == elements_of(children@),
            xml_names_in(models, context@, i as nat) == Ok::<Seq<NameModel>, Text>(names_of(out@)),
        decreases children.len() - i,
    {
        let child = &children[i];
        assert(models[i as int] == child@);
        if is_rng(child) {
            let result = match xml_context(child, context) {
                Err(error) => Err(error),
                Ok(inner) => xml_name_class(child, &inner),
            };
            match result {
                Err(error) => {
                    proof {
                        lemma_names_in_first(models, context@, (i + 1) as nat);
                    }
                    return Err(error);
                },
                Ok(class) => {
                    let ghost before = names_of(out@);
                    out.push(class);
                    assert(names_of(out@) =~= before.push(class@));
                },
            }
        }
        i += 1;
    }
    Ok(out)
}

/// The first error of a prefix is that of all.
proof fn lemma_names_in_first(children: Seq<XmlModel>, ctx: ContextModel, n: nat)
    requires
        n <= children.len(),
        xml_names_in(children, ctx, n) is Err,
    ensures
        xml_names_in(children, ctx, children.len()) == xml_names_in(children, ctx, n),
    decreases children.len() - n,
{
    if n < children.len() {
        lemma_names_in_first(children, ctx, n + 1);
    }
}

// ---------------------------------------------------------------------
// The functions: patterns
// ---------------------------------------------------------------------

/// Whether a result is the patterns stated.
spec fn gives_patterns(r: Result<Vec<Pattern>, ParseError>, want: Parsed<Seq<PatternModel>>) -> bool {
    match r {
        Ok(patterns) => want == Ok::<Seq<PatternModel>, Text>(patterns_of(patterns@)),
        Err(error) => want == Err::<Seq<PatternModel>, Text>(error@),
    }
}

/// Whether a result is the components stated.
spec fn gives_items(r: Result<Vec<GrammarItem>, ParseError>, want: Parsed<Seq<ItemModel>>) -> bool {
    match r {
        Ok(items) => want == Ok::<Seq<ItemModel>, Text>(items_of(items@)),
        Err(error) => want == Err::<Seq<ItemModel>, Text>(error@),
    }
}

/// The first error of a prefix is that of all.
proof fn lemma_patterns_in_first(children: Seq<XmlModel>, ctx: ContextModel, from: int, n: nat)
    requires
        n <= children.len(),
        xml_patterns_in(children, ctx, from, n) is Err,
    ensures
        xml_patterns_in(children, ctx, from, children.len()) == xml_patterns_in(
            children,
            ctx,
            from,
            n,
        ),
    decreases children.len() - n,
{
    if n < children.len() {
        lemma_patterns_in_first(children, ctx, from, n + 1);
    }
}

/// The first error of a prefix is that of all.
proof fn lemma_params_in_first(children: Seq<XmlModel>, ctx: ContextModel, n: nat)
    requires
        n <= children.len(),
        xml_params_in(children, ctx, n) is Err,
    ensures
        xml_params_in(children, ctx, children.len()) == xml_params_in(children, ctx, n),
    decreases children.len() - n,
{
    if n < children.len() {
        lemma_params_in_first(children, ctx, n + 1);
    }
}

/// The first error of a prefix is that of all.
proof fn lemma_items_in_first(children: Seq<XmlModel>, ctx: ContextModel, n: nat)
    requires
        n <= children.len(),
        xml_items_in(children, ctx, n) is Err,
    ensures
        xml_items_in(children, ctx, children.len()) == xml_items_in(children, ctx, n),
    decreases children.len() - n,
{
    if n < children.len() {
        lemma_items_in_first(children, ctx, n + 1);
    }
}

/// Reads the patterns of the children that belong to schemas, from the child at `from` on;
/// see [`xml_patterns_in`].
fn xml_pattern_seq(children: &Vec<XmlElement>, from: usize, context: &Context) -> (r: Result<
    Vec<Pattern>,
    ParseError,
>)
    ensures
        gives_patterns(
            r,
            xml_patterns_in(elements_of(children@), context@, from as int, children@.len()),
        ),
    decreases children, 0nat,
{
    let ghost models = elements_of(children@);
    let mut out: Vec<Pattern> = Vec::new();
    let mut i: usize = 0;
    assert(patterns_of(out@) =~= Seq::<PatternModel>::empty());
    while i < children.len()
        invariant
            i <= children@.len(),
            models == elements_of(children@),
            xml_patterns_in(models, context@, from as int, i as nat) == Ok::<
                Seq<PatternModel>,
                Text,
            >(patterns_of(out@)),
        decreases children.len() - i,
    {
        let child = &children[i];
        assert(models[i as int] == child@);
        if from <= i && is_rng(child) {
            let result = match xml_context(child, context) {
                Err(error) => Err(error),
                Ok(inner) => xml_pattern(child, &inner),
            };
            match result {
                Err(error) => {
                    proof {
                        lemma_patterns_in_first(models, context@, from as int, (i + 1) as nat);
                    }
                    return Err(error);
                },
                Ok(pattern) => {
                    let ghost before = patterns_of(out@);
                    out.push(pattern);
                    assert(patterns_of(out@) =~= before.push(pattern@));
                },
            }
        }
        i += 1;
    }
    Ok(out)
}

/// Reads the patterns of an element that must have children.
fn xml_patterns(node: &XmlElement, context: &Context) -> (r: Result<Vec<Pattern>, ParseError>)
    ensures
        gives_patterns(r, xml_container(node@, context@)),
    decreases node, 0nat,
{
    let allowed: [&str; 0] = [];
    assert(listed(allowed@) =~= Seq::<Text>::empty());
    match require_children(node, &allowed) {
        Err(error) => {
            return Err(error);
        },
        Ok(_) => {},
    }
    proof {
        node.lemma_model();
    }
    xml_pattern_seq(&node.children, 0, context)
}

/// Completes the body of an `element` or `attribute`; see [`finished_body`].
fn finish_body(node: &XmlElement, body: Vec<Pattern>, is_attribute: bool) -> (r: Result<
    Vec<Pattern>,
    ParseError,
>)
    ensures
        gives_patterns(r, finished_body(node@, patterns_of(body@), is_attribute)),
{
    if is_attribute && body.len() > 1 {
        return Err(
            ParseError::from_string(
                concat3("`<", node.name.as_str(), ">` must have at most one pattern child"),
            ),
        );
    }
    if body.len() > 0 {
        return Ok(body);
    }
    if is_attribute {
        return Ok(single(Pattern::Text));
    }
    Err(
        ParseError::from_string(
            concat3("`<", node.name.as_str(), ">` requires at least one pattern child"),
        ),
    )
}

/// Reads the name class and the body of an `element` or `attribute`; see [`xml_named`].
fn xml_named_pattern(node: &XmlElement, context: &Context, is_attribute: bool) -> (r: Result<
    (NameClass, Vec<Pattern>),
    ParseError,
>)
    ensures
        match r {
            Ok((name, body)) => xml_named(node@, context@, is_attribute) == Ok::<
                (NameModel, Seq<PatternModel>),
                Text,
            >((name@, patterns_of(body@))),
            Err(error) => xml_named(node@, context@, is_attribute) == Err::<
                (NameModel, Seq<PatternModel>),
                Text,
            >(error@),
        },
    decreases node, 0nat,
{
    proof {
        node.lemma_model();
    }
    let allowed = ["name"];
    assert(listed(allowed@) =~= seq!["name"@]);
    match reject_unknown_attributes(node, &allowed) {
        Err(error) => {
            return Err(error);
        },
        Ok(_) => {},
    }
    match token_attribute(node, "name") {
        Some(name) => {
            let unqualified_default = if is_attribute {
                Some(String::new())
            } else {
                copy_opt(&context.ns)
            };
            match one_name(name, token_attribute(node, "ns"), unqualified_default, context) {
                Err(error) => Err(error),
                Ok(class) => match xml_pattern_seq(&node.children, 0, context) {
                    Err(error) => Err(error),
                    Ok(read) => match finish_body(node, read, is_attribute) {
                        Err(error) => Err(error),
                        Ok(body) => Ok((class, body)),
                    },
                },
            }
        },
        None => {
            let k = first_rng_child(&node.children);
            if k >= node.children.len() {
                return Err(ParseError::new("element or attribute requires a name class"));
            }
            let child = &node.children[k];
            assert(node@.children[k as int] == child@);
            match xml_context(child, context) {
                Err(error) => Err(error),
                Ok(inner) => match xml_name_class(child, &inner) {
                    Err(error) => Err(error),
                    Ok(class) => match xml_pattern_seq(&node.children, k + 1, context) {
                        Err(error) => Err(error),
                        Ok(read) => match finish_body(node, read, is_attribute) {
                            Err(error) => Err(error),
                            Ok(body) => Ok((class, body)),
                        },
                    },
                },
            }
        },
    }
}

/// Reads a parameter of a datatype.
fn xml_parameter(node: &XmlElement, context: &Context) -> (r: Result<Param, ParseError>)
    ensures
        parsed(r) == xml_param(node@, context@),
{
    let allowed = ["name"];
    assert(listed(allowed@) =~= seq!["name"@]);
    match require_no_child_elements(node, &allowed) {
        Err(error) => {
            return Err(error);
        },
        Ok(_) => {},
    }
    match require_attribute_value(attribute(node, "name"), "name") {
        Err(error) => Err(error),
        Ok(name) => match xml_context(node, context) {
            Err(error) => Err(error),
            Ok(inner) => Ok(Param { name, value: copy_or_empty(&node.text), context: inner }),
        },
    }
}

/// Reads the parameters of a datatype; see [`xml_params_in`].
fn xml_parameters(children: &Vec<XmlElement>, context: &Context) -> (r: Result<
    Vec<Param>,
    ParseError,
>)
    ensures
        match r {
            Ok(params) => xml_params_in(elements_of(children@), context@, children@.len()) == Ok::<
                Seq<ParamModel>,
                Text,
            >(params_of(params@)),
            Err(error) => xml_params_in(elements_of(children@), context@, children@.len()) == Err::<
                Seq<ParamModel>,
                Text,
            >(error@),
        },
{
    let ghost models = elements_of(children@);
    let mut out: Vec<Param> = Vec::new();
    let mut i: usize = 0;
    assert(params_of(out@) =~= Seq::<ParamModel>::empty());
    while i < children.len()
        invariant
            i <= children@.len(),
            models == elements_of(children@),
            xml_params_in(models, context@, i as nat) == Ok::<Seq<ParamModel>, Text>(
                params_of(out@),
            ),
        decreases children.len() - i,
    {
        let child = &children[i];
        assert(models[i as int] == child@);
        if is_rng(child) && same(child.name.as_str(), "param") {
            match xml_parameter(child, context) {
                Err(error) => {
                    proof {
                        lemma_params_in_first(models, context@, (i + 1) as nat);
                    }
                    return Err(error);
                },
                Ok(param) => {
                    let ghost before = params_of(out@);
                    out.push(param);
                    assert(params_of(out@) =~= before.push(param@));
                },
            }
        }
        i += 1;
    }
    Ok(out)
}

/// Reads the exceptions of a datatype; see [`xml_except_patterns`].
fn xml_except(children: &Vec<XmlElement>, context: &Context) -> (r: Result<
    Vec<Pattern>,
    ParseError,
>)
    ensures
        gives_patterns(r, xml_except_patterns(elements_of(children@), context@)),
    decreases children, 0nat,
{
    let k = first_except_child(children, 0);
    if k >= children.len() {
        let none: Vec<Pattern> = Vec::new();
        assert(patterns_of(none@) =~= Seq::<PatternModel>::empty());
        return Ok(none);
    }
    if first_except_child(children, k + 1) < children.len() {
        return Err(ParseError::new("`<data>` may have at most one `except`"));
    }
    let only = &children[k];
    let allowed: [&str; 0] = [];
    assert(listed(allowed@) =~= Seq::<Text>::empty());
    match require_children(only, &allowed) {
        Err(error) => {
            return Err(error);
        },
        Ok(_) => {},
    }
    proof {
        only.lemma_model();
    }
    xml_pattern_seq(&only.children, 0, context)
}

/// Reads a datatype; see [`xml_data`].
fn xml_data_pattern(node: &XmlElement, context: &Context) -> (r: Result<Pattern, ParseError>)
    ensures
        parsed(r) == xml_data(node@, context@),
    decreases node, 0nat,
{
    proof {
        node.lemma_model();
    }
    let allowed = ["type"];
    assert(listed(allowed@) =~= seq!["type"@]);
    match reject_unknown_attributes(node, &allowed) {
        Err(error) => {
            return Err(error);
        },
        Ok(_) => {},
    }
    match xml_parameters(&node.children, context) {
        Err(error) => Err(error),
        Ok(params) => match xml_except(&node.children, context) {
            Err(error) => Err(error),
            Ok(except) => match require_attribute_value(token_attribute(node, "type"), "type") {
                Err(error) => Err(error),
                Ok(datatype) => {
                    let pattern = Pattern::Data {
                        datatype,
                        datatype_library: copy_opt(&context.datatype_library),
                        params,
                        except,
                        context: context.duplicate(),
                    };
                    proof {
                        pattern.lemma_model();
                    }
                    Ok(pattern)
                },
            },
        },
    }
}

/// Reads a value; see [`xml_value`].
fn xml_value_pattern(node: &XmlElement, context: &Context) -> (r: Result<Pattern, ParseError>)
    ensures
        parsed(r) == xml_value(node@, context@),
{
    let allowed = ["type"];
    assert(listed(allowed@) =~= seq!["type"@]);
    match require_no_child_elements(node, &allowed) {
        Err(error) => {
            return Err(error);
        },
        Ok(_) => {},
    }
    let datatype = token_attribute(node, "type");
    let datatype_library = if datatype.is_some() {
        copy_opt(&context.datatype_library)
    } else {
        None
    };
    let pattern = Pattern::Value {
        value: copy_or_empty(&node.text),
        datatype,
        datatype_library,
        namespace: inherited_ns_attribute(node, context),
        context: context.duplicate(),
    };
    proof {
        pattern.lemma_model();
    }
    Ok(pattern)
}

/// Reads a pattern without parts.
fn xml_leaf_pattern(node: &XmlElement, pattern: Pattern) -> (r: Result<Pattern, ParseError>)
    ensures
        parsed(r) == xml_leaf(node@, pattern@),
{
    let allowed: [&str; 0] = [];
    assert(listed(allowed@) =~= Seq::<Text>::empty());
    match require_no_children(node, &allowed) {
        Err(error) => Err(error),
        Ok(_) => Ok(pattern),
    }
}

/// Reads a reference by name.
fn xml_reference(node: &XmlElement, label: &str) -> (r: Result<String, ParseError>)
    ensures
        parsed(r) == (match leaf_problem(node@, seq!["name"@]) {
            Some(message) => Err(message),
            None => required_name(node@, label@),
        }),
{
    let allowed = ["name"];
    assert(listed(allowed@) =~= seq!["name"@]);
    match require_no_children(node, &allowed) {
        Err(error) => Err(error),
        Ok(_) => required_ncname_attribute(node, label),
    }
}

/// Reads a pattern; see [`xml_pattern_of`].
fn xml_pattern(node: &XmlElement, context: &Context) -> (r: Result<Pattern, ParseError>)
    ensures
        parsed(r) == xml_pattern_of(node@, context@),
    decreases node, 2nat,
{
    let name = node.name.as_str();
    if same(name, "element") {
        return match xml_named_pattern(node, context, false) {
            Err(error) => Err(error),
            Ok((class, body)) => {
                let pattern = Pattern::Element {
                    name: class,
                    body,
                    context: context.duplicate(),
                };
                proof {
                    pattern.lemma_model();
                }
                Ok(pattern)
            },
        };
    }
    if same(name, "attribute") {
        return match xml_named_pattern(node, context, true) {
            Err(error) => Err(error),
            Ok((class, body)) => {
                let pattern = Pattern::Attribute {
                    name: class,
                    body,
                    context: context.duplicate(),
                };
                proof {
                    pattern.lemma_model();
                }
                Ok(pattern)
            },
        };
    }
    if same(name, "group") || same(name, "interleave") || same(name, "choice") || same(
        name,
        "optional",
    ) || same(name, "zeroOrMore") || same(name, "oneOrMore") || same(name, "list") || same(
        name,
        "mixed",
    ) {
        return match xml_patterns(node, context) {
            Err(error) => Err(error),
            Ok(values) => {
                let pattern = if same(name, "group") {
                    Pattern::Group(values)
                } else if same(name, "interleave") {
                    Pattern::Interleave(values)
                } else if same(name, "choice") {
                    Pattern::Choice(values)
                } else if same(name, "optional") {
                    Pattern::Optional(values)
                } else if same(name, "zeroOrMore") {
                    Pattern::ZeroOrMore(values)
                } else if same(name, "oneOrMore") {
                    Pattern::OneOrMore(values)
                } else if same(name, "list") {
                    Pattern::List(values)
                } else {
                    Pattern::Mixed(values)
                };
                proof {
                    pattern.lemma_model();
                }
                Ok(pattern)
            },
        };
    }
    if same(name, "empty") {
        return xml_leaf_pattern(node, Pattern::Empty);
    }
    if same(name, "notAllowed") {
        return xml_leaf_pattern(node, Pattern::NotAllowed);
    }
    if same(name, "text") {
        return xml_leaf_pattern(node, Pattern::Text);
    }
    if same(name, "ref") {
        return match xml_reference(node, "ref name") {
            Err(error) => Err(error),
            Ok(target) => Ok(Pattern::Ref(target)),
        };
    }
    if same(name, "parentRef") {
        return match xml_reference(node, "parentRef name") {
            Err(error) => Err(error),
            Ok(target) => Ok(Pattern::ParentRef(target)),
        };
    }
    if same(name, "externalRef") {
        let allowed = ["href"];
        assert(listed(allowed@) =~= seq!["href"@]);
        match require_no_children(node, &allowed) {
            Err(error) => {
                return Err(error);
            },
            Ok(_) => {},
        }
        return match require_attribute_value(attribute(node, "href"), "href") {
            Err(error) => Err(error),
            Ok(href) => {
                let pattern = Pattern::ExternalRef {
                    href,
                    inherit_namespace: token_attribute(node, "ns"),
                    context: context.duplicate(),
                };
                proof {
                    pattern.lemma_model();
                }
                Ok(pattern)
            },
        };
    }
    if same(name, "grammar") {
        return match xml_grammar(node, context) {
            Err(error) => Err(error),
            Ok(grammar) => Ok(Pattern::Grammar(grammar)),
        };
    }
    if same(name, "data") {
        return xml_data_pattern(node, context);
    }
    if same(name, "value") {
        return xml_value_pattern(node, context);
    }
    Err(ParseError::from_string(concat3("unsupported RELAX NG pattern `", name, "`")))
}

// ---------------------------------------------------------------------
// The functions: grammars
// ---------------------------------------------------------------------

/// Reads how definitions combine.
fn xml_combine(node: &XmlElement) -> (r: Result<Option<Combine>, ParseError>)
    ensures
        match r {
            Ok(combine) => combine_of(node@) == Ok::<Option<Combine>, Text>(combine),
            Err(error) => combine_of(node@) == Err::<Option<Combine>, Text>(error@),
        },
{
    match token_attribute(node, "combine") {
        None => Ok(None),
        Some(value) => {
            if same(value.as_str(), "choice") {
                Ok(Some(Combine::Choice))
            } else if same(value.as_str(), "interleave") {
                Ok(Some(Combine::Interleave))
            } else {
                Err(
                    ParseError::from_string(concat3("unknown combine value `", value.as_str(), "`")),
                )
            }
        },
    }
}

/// Wraps more than one pattern in a group: this is a single definition's own content,
/// unlike several definitions of one name.
fn implicit_group(body: Vec<Pattern>) -> (r: Vec<Pattern>)
    ensures
        patterns_of(r@) == grouped(patterns_of(body@)),
{
    if body.len() > 1 {
        let group = Pattern::Group(body);
        proof {
            group.lemma_model();
        }
        single(group)
    } else {
        body
    }
}

/// Reads a grammar component; see [`xml_item_of`].
fn xml_grammar_item(node: &XmlElement, context: &Context) -> (r: Result<GrammarItem, ParseError>)
    ensures
        parsed(r) == xml_item_of(node@, context@),
    decreases node, 0nat,
{
    proof {
        node.lemma_model();
    }
    let name = node.name.as_str();
    if same(name, "start") {
        let allowed = ["combine"];
        assert(listed(allowed@) =~= seq!["combine"@]);
        match require_children(node, &allowed) {
            Err(error) => {
                return Err(error);
            },
            Ok(_) => {},
        }
        return match xml_pattern_seq(&node.children, 0, context) {
            Err(error) => Err(error),
            Ok(body) => {
                if body.len() > 1 {
                    return Err(ParseError::new("`<start>` must have at most one pattern child"));
                }
                match xml_combine(node) {
                    Err(error) => Err(error),
                    Ok(combine) => {
                        let item = GrammarItem::Start { combine, body };
                        proof {
                            item.lemma_model();
                        }
                        Ok(item)
                    },
                }
            },
        };
    }
    if same(name, "define") {
        let allowed = ["name", "combine"];
        assert(listed(allowed@) =~= seq!["name"@, "combine"@]);
        match require_children(node, &allowed) {
            Err(error) => {
                return Err(error);
            },
            Ok(_) => {},
        }
        return match required_ncname_attribute(node, "define name") {
            Err(error) => Err(error),
            Ok(target) => match xml_combine(node) {
                Err(error) => Err(error),
                Ok(combine) => match xml_pattern_seq(&node.children, 0, context) {
                    Err(error) => Err(error),
                    Ok(body) => {
                        let item = GrammarItem::Define {
                            name: target,
                            combine,
                            body: implicit_group(body),
                        };
                        proof {
                            item.lemma_model();
                        }
                        Ok(item)
                    },
                },
            },
        };
    }
    if same(name, "div") {
        let allowed: [&str; 0] = [];
        assert(listed(allowed@) =~= Seq::<Text>::empty());
        match reject_unknown_attributes(node, &allowed) {
            Err(error) => {
                return Err(error);
            },
            Ok(_) => {},
        }
        return match xml_grammar_item_seq(&node.children, context) {
            Err(error) => Err(error),
            Ok(items) => {
                let item = GrammarItem::Div(items);
                proof {
                    item.lemma_model();
                }
                Ok(item)
            },
        };
    }
    if same(name, "include") {
        let allowed = ["href"];
        assert(listed(allowed@) =~= seq!["href"@]);
        match reject_unknown_attributes(node, &allowed) {
            Err(error) => {
                return Err(error);
            },
            Ok(_) => {},
        }
        return match require_attribute_value(attribute(node, "href"), "href") {
            Err(error) => Err(error),
            Ok(href) => match xml_grammar_item_seq(&node.children, context) {
                Err(error) => Err(error),
                Ok(body) => {
                    let item = GrammarItem::Include {
                        href,
                        inherit_namespace: token_attribute(node, "ns"),
                        body,
                        context: context.duplicate(),
                    };
                    proof {
                        item.lemma_model();
                    }
                    Ok(item)
                },
            },
        };
    }
    Err(ParseError::from_string(concat3("unsupported RELAX NG grammar item `", name, "`")))
}

/// Reads the grammar components among the children; see [`xml_items_in`].
fn xml_grammar_item_seq(children: &Vec<XmlElement>, context: &Context) -> (r: Result<
    Vec<GrammarItem>,
    ParseError,
>)
    ensures
        gives_items(r, xml_items_in(elements_of(children@), context@, children@.len())),
    decreases children, 0nat,
{
    let ghost models = elements_of(children@);
    let mut out: Vec<GrammarItem> = Vec::new();
    let mut i: usize = 0;
    assert(items_of(out@) =~= Seq::<ItemModel>::empty());
    while i < children.len()
        invariant
            i <= children@.len(),
            models == elements_of(children@),
            xml_items_in(models, context@, i as nat) == Ok::<Seq<ItemModel>, Text>(items_of(out@)),
        decreases children.len() - i,
    {
        let child = &children[i];
        assert(models[i as int] == child@);
        if is_rng(child) {
            let result = match xml_context(child, context) {
                Err(error) => Err(error),
                Ok(inner) => xml_grammar_item(child, &inner),
            };
            match result {
                Err(error) => {
                    proof {
                        lemma_items_in_first(models, context@, (i + 1) as nat);
                    }
                    return Err(error);
                },
                Ok(item) => {
                    let ghost before = items_of(out@);
                    out.push(item);
                    assert(items_of(out@) =~= before.push(item@));
                },
            }
        }
        i += 1;
    }
    Ok(out)
}

/// Reads a grammar; see [`xml_grammar_of`].
fn xml_grammar(node: &XmlElement, context: &Context) -> (r: Result<Grammar, ParseError>)
    ensures
        parsed(r) == xml_grammar_of(node@, context@),
    decreases node, 1nat,
{
    proof {
        node.lemma_model();
    }
    let allowed: [&str; 0] = [];
    assert(listed(allowed@) =~= Seq::<Text>::empty());
    match reject_unknown_attributes(node, &allowed) {
        Err(error) => {
            return Err(error);
        },
        Ok(_) => {},
    }
    match xml_grammar_item_seq(&node.children, context) {
        Err(error) => Err(error),
        Ok(items) => {
            let grammar = Grammar { context: context.duplicate(), items };
            proof {
                grammar.lemma_model();
            }
            Ok(grammar)
        },
    }
}

/// Reads a schema from the tree of its outermost element; see [`xml_root`].
pub fn parse_xml_tree(root: &XmlElement, source: &SchemaSource, inherited_ns: Option<String>) -> (r:
    Result<SchemaDocument, ParseError>)
    ensures
        parsed(r) == xml_root(root@, source@.base_uri, opt_text(inherited_ns)),
{
    if !is_rng(root) {
        return Err(ParseError::new("schema root must use the RELAX NG namespace"));
    }
    let root_context = initial_context(source, Some(String::new()), inherited_ns);
    match xml_context(root, &root_context) {
        Err(error) => Err(error),
        Ok(context) => {
            if same(root.name.as_str(), "grammar") {
                match xml_grammar(root, &context) {
                    Err(error) => Err(error),
                    Ok(grammar) => Ok(SchemaDocument { root: Root::Grammar(grammar) }),
                }
            } else {
                match xml_pattern(root, &context) {
                    Err(error) => Err(error),
                    Ok(pattern) => Ok(SchemaDocument { root: Root::Pattern(pattern) }),
                }
            }
        },
    }
}

/// Parses a schema in the XML syntax; see [`xml_schema`].
pub fn parse_xml(source: &SchemaSource, inherited_ns: Option<String>) -> (r: Result<
    SchemaDocument,
    ParseError,
>)
    ensures
        parsed(r) == xml_schema(source@.text, source@.base_uri, opt_text(inherited_ns)),
{
    match parse_tree(source.text()) {
        Err(message) => Err(
            ParseError::from_string(concat2("invalid XML schema: ", message.as_str())),
        ),
        Ok(root) => parse_xml_tree(&root, source, inherited_ns),
    }
}

} // verus!
