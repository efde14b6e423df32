//! Derivatives of patterns. A pattern describes what it accepts: attributes, child
//! elements, runs of text. Once one such thing has been seen, the derivative of the
//! pattern with respect to it describes what must still follow, and a pattern is
//! *nullable* where nothing more need follow.
//!
//! Every function here follows `ref`, through every construct. The number of `ref`s,
//! `list`s and `except`s that are nested inside one another is bounded by a depth that
//! no schema in memory reaches; the bound makes the functions total on patterns whose
//! `ref`s never come to an end.
use vstd::prelude::*;

use crate::algebra::{
    choice, choice_of, group, group_of, interleave, interleave_of, is_not_allowed, pair,
};
use crate::datatypes::registry::{pairs, Bindings, DatatypeContext, DatatypeRegistry, RegistryModel};
use crate::grammar::{
    copy_pattern, params_of, patterns_of, Context, ContextModel, NameModel, Param, ParamModel,
    Pattern, PatternModel,
};
use crate::name_class::{holds_name, name_class_matches};
use crate::string_map::{lookup, StringMap};
use crate::text::{
    blank, char_vecs, copy_or_empty, from_chars, is_blank, opt_text, or_empty, split_tokens,
    to_chars, tokens, Text,
};
use crate::validator::{ExpandedName, NameView};

verus! {

/// The named patterns of a schema.
pub type Definitions = StringMap<Pattern>;

/// The model of [`Definitions`].
pub type Defs = Seq<(Text, PatternModel)>;

/// How many `ref`s, `list`s and `except`s are followed inside one another.
pub const MAX_DEPTH: u64 = 0xffff_ffff_ffff_ffff;

// ---------------------------------------------------------------------
// What the functions compute
// ---------------------------------------------------------------------

/// The names and values of parameters.
pub open spec fn param_texts(params: Seq<ParamModel>) -> Seq<(Text, Text)> {
    Seq::new(params.len(), |i: int| (params[i].name, params[i].value))
}

/// The bindings by which a `value` pattern's own text is resolved: those of the schema,
/// with the pattern's namespace for a text without a prefix.
pub open spec fn literal_bindings(namespace: Option<Text>, context: ContextModel) -> Bindings {
    context.namespaces.push((Seq::empty(), or_empty(namespace)))
}

/// The datatype by which a `value` pattern compares.
pub open spec fn value_type(datatype: Option<Text>) -> Text {
    match datatype {
        Some(name) => name,
        None => "token"@,
    }
}

/// Whether a text is a value of a datatype.
pub open spec fn data_accepts(
    registry: RegistryModel,
    library: Option<Text>,
    datatype: Text,
    params: Seq<ParamModel>,
    text: Text,
    context: Bindings,
) -> bool {
    match lookup(registry, or_empty(library)) {
        Some(l) => (l.accepts)(datatype, param_texts(params), text, context),
        None => false,
    }
}

/// Whether a text is the value that a `value` pattern gives.
pub open spec fn value_accepts(
    registry: RegistryModel,
    library: Option<Text>,
    datatype: Option<Text>,
    value: Text,
    literal: Bindings,
    text: Text,
    context: Bindings,
) -> bool {
    match lookup(registry, or_empty(library)) {
        Some(l) => (l.same)(value_type(datatype), value, literal, text, context),
        None => false,
    }
}

/// Whether a pattern is satisfied by no event at all. A `data` or `value` is not, even
/// where it accepts the empty string, and a `list` is where its own pattern is; an
/// `attribute` is, since attributes do not take part in the order of children.
pub open spec fn structurally_empty(p: PatternModel, defs: Defs, depth: nat) -> bool
    decreases depth, p,
{
    match p {
        PatternModel::Attribute { name, body, context } => true,
        PatternModel::Empty => true,
        PatternModel::Text => true,
        PatternModel::List(values) => values.len() > 0 && structurally_empty(
            values[0],
            defs,
            depth,
        ),
        PatternModel::Choice(values) => some_structurally_empty(values, defs, depth),
        PatternModel::Group(values) => all_structurally_empty(values, defs, depth),
        PatternModel::Interleave(values) => all_structurally_empty(values, defs, depth),
        PatternModel::OneOrMore(values) => values.len() > 0 && structurally_empty(
            values[0],
            defs,
            depth,
        ),
        PatternModel::Ref(name) => depth > 0 && (match lookup(defs, name) {
            Some(target) => structurally_empty(target, defs, (depth - 1) as nat),
            None => false,
        }),
        _ => false,
    }
}

/// Whether some pattern is satisfied by no event at all.
pub open spec fn some_structurally_empty(s: Seq<PatternModel>, defs: Defs, depth: nat) -> bool
    decreases depth, s,
{
    exists|i: int| 0 <= i < s.len() && structurally_empty(#[trigger] s[i], defs, depth)
}

/// Whether every pattern is satisfied by no event at all.
pub open spec fn all_structurally_empty(s: Seq<PatternModel>, defs: Defs, depth: nat) -> bool
    decreases depth, s,
{
    forall|i: int| 0 <= i < s.len() ==> structurally_empty(#[trigger] s[i], defs, depth)
}

/// Whether the patterns before the `n`th are satisfied by no event at all, so that it can
/// be next.
pub open spec fn prefix_empty(s: Seq<PatternModel>, n: int, defs: Defs, depth: nat) -> bool {
    forall|i: int| 0 <= i < n ==> structurally_empty(#[trigger] s[i], defs, depth)
}

/// Whether a position that can be next wants text. Of alternatives, all must, since an
/// alternative that does not is one that white space can be left out for.
pub open spec fn expects_text(p: PatternModel, defs: Defs, depth: nat) -> bool
    decreases depth, p,
{
    match p {
        PatternModel::Text => true,
        PatternModel::Data { datatype, datatype_library, params, except, context } => true,
        PatternModel::Value { value, datatype, datatype_library, namespace, context } => true,
        PatternModel::List(values) => true,
        PatternModel::Choice(values) => all_expect_text(values, defs, depth),
        PatternModel::Interleave(values) => some_expect_text(values, defs, depth),
        PatternModel::Group(values) => next_expect_text(values, defs, depth),
        PatternModel::OneOrMore(values) => values.len() > 0 && expects_text(
            values[0],
            defs,
            depth,
        ),
        PatternModel::Ref(name) => depth > 0 && (match lookup(defs, name) {
            Some(target) => expects_text(target, defs, (depth - 1) as nat),
            None => false,
        }),
        _ => false,
    }
}

/// Whether every pattern wants text.
pub open spec fn all_expect_text(s: Seq<PatternModel>, defs: Defs, depth: nat) -> bool
    decreases depth, s,
{
    forall|i: int| 0 <= i < s.len() ==> expects_text(#[trigger] s[i], defs, depth)
}

/// Whether some pattern wants text.
pub open spec fn some_expect_text(s: Seq<PatternModel>, defs: Defs, depth: nat) -> bool
    decreases depth, s,
{
    exists|i: int| 0 <= i < s.len() && expects_text(#[trigger] s[i], defs, depth)
}

/// Whether some pattern of a group that can be next wants text.
pub open spec fn next_expect_text(s: Seq<PatternModel>, defs: Defs, depth: nat) -> bool
    decreases depth, s,
{
    exists|i: int|
        0 <= i < s.len() && expects_text(#[trigger] s[i], defs, depth) && prefix_empty(
            s,
            i,
            defs,
            depth,
        )
}

/// What is left of a position of a group once a later one has matched, so that it has
/// matched no child: nothing that could match one any more, but the attributes, which are
/// matched apart. What cannot do without a child is no longer an alternative.
pub open spec fn closed_position(p: PatternModel, defs: Defs, depth: nat) -> PatternModel
    decreases depth, p,
{
    match p {
        PatternModel::Attribute { name, body, context } => p,
        PatternModel::Empty => PatternModel::Empty,
        PatternModel::Text => PatternModel::Empty,
        PatternModel::List(values) => if values.len() > 0 && structurally_empty(
            values[0],
            defs,
            depth,
        ) {
            PatternModel::Empty
        } else {
            PatternModel::NotAllowed
        },
        PatternModel::Group(values) => group_of(closed_positions(values, defs, depth)),
        PatternModel::Interleave(values) => interleave_of(closed_positions(values, defs, depth)),
        PatternModel::Choice(values) => choice_of(closed_positions(values, defs, depth)),
        PatternModel::OneOrMore(values) => if values.len() > 0 {
            closed_position(values[0], defs, depth)
        } else {
            PatternModel::NotAllowed
        },
        PatternModel::Ref(name) => if depth > 0 {
            match lookup(defs, name) {
                Some(target) => closed_position(target, defs, (depth - 1) as nat),
                None => PatternModel::NotAllowed,
            }
        } else {
            PatternModel::NotAllowed
        },
        _ => PatternModel::NotAllowed,
    }
}

/// What is left of each position.
pub open spec fn closed_positions(s: Seq<PatternModel>, defs: Defs, depth: nat) -> Seq<
    PatternModel,
>
    decreases depth, s,
{
    Seq::new(
        s.len(),
        |i: int|
            if 0 <= i < s.len() {
                closed_position(s[i], defs, depth)
            } else {
                PatternModel::Empty
            },
    )
}

/// Which container the operands of a position derivative belong to.
pub enum Container {
    /// A group.
    Group,
    /// An interleave.
    Interleave,
}

/// The container around its operands.
pub open spec fn contained(container: Container, s: Seq<PatternModel>) -> PatternModel {
    match container {
        Container::Group => group_of(s),
        Container::Interleave => interleave_of(s),
    }
}

/// The operands once the one at `i` has matched: it becomes its derivative, and in
/// sequence the earlier ones are closed.
pub open spec fn branch_at(
    values: Seq<PatternModel>,
    derived: Seq<PatternModel>,
    sequential: bool,
    i: int,
    defs: Defs,
    depth: nat,
) -> Seq<PatternModel> {
    Seq::new(
        values.len(),
        |j: int|
            if j == i {
                derived[j]
            } else if sequential && j < i {
                closed_position(values[j], defs, depth)
            } else {
                values[j]
            },
    )
}

/// The alternatives of matching at one of the first `n` operands: at any that the event
/// fits, and in sequence only where the earlier ones can be passed over.
pub open spec fn alternatives(
    values: Seq<PatternModel>,
    derived: Seq<PatternModel>,
    sequential: bool,
    container: Container,
    defs: Defs,
    depth: nat,
    n: nat,
) -> Seq<PatternModel>
    decreases n,
{
    if n == 0 {
        Seq::empty()
    } else {
        let i = n - 1;
        let rest = alternatives(
            values,
            derived,
            sequential,
            container,
            defs,
            depth,
            (n - 1) as nat,
        );
        if !(derived[i] is NotAllowed) && (sequential ==> prefix_empty(values, i, defs, depth)) {
            rest.push(
                contained(container, branch_at(values, derived, sequential, i, defs, depth)),
            )
        } else {
            rest
        }
    }
}

/// The derivative of a group or an interleave, from the derivatives of its operands.
pub open spec fn positions_derivative(
    values: Seq<PatternModel>,
    derived: Seq<PatternModel>,
    sequential: bool,
    container: Container,
    defs: Defs,
    depth: nat,
) -> PatternModel {
    choice_of(alternatives(values, derived, sequential, container, defs, depth, values.len()))
}

/// The derivative of a repetition `whole`, from that of what is repeated: one occurrence
/// now, and then the repetition again or nothing.
pub open spec fn repetition_derivative(derived: PatternModel, whole: PatternModel) -> PatternModel {
    group_of(seq![derived, choice_of(seq![whole, PatternModel::Empty])])
}

/// Whether a pattern accepts that nothing more follows. A `data` or `value` does where it
/// accepts the empty string.
pub open spec fn is_nullable(
    p: PatternModel,
    defs: Defs,
    registry: RegistryModel,
    depth: nat,
) -> bool
    decreases depth, 0nat, p,
{
    match p {
        PatternModel::Empty => true,
        PatternModel::Text => true,
        PatternModel::Data { datatype, datatype_library, params, except, context } => data_accepts(
            registry,
            datatype_library,
            datatype,
            params,
            Seq::empty(),
            Seq::empty(),
        ) && !excluded(except, Seq::empty(), defs, registry, Seq::empty(), depth),
        PatternModel::Value { value, datatype, datatype_library, namespace, context } =>
            value_accepts(
            registry,
            datatype_library,
            datatype,
            value,
            literal_bindings(namespace, context),
            Seq::empty(),
            Seq::empty(),
        ),
        PatternModel::List(values) => values.len() > 0 && structurally_empty(
            values[0],
            defs,
            depth,
        ),
        PatternModel::Choice(values) => some_nullable(values, defs, registry, depth),
        PatternModel::Group(values) => all_nullable(values, defs, registry, depth),
        PatternModel::Interleave(values) => all_nullable(values, defs, registry, depth),
        PatternModel::OneOrMore(values) => values.len() > 0 && is_nullable(
            values[0],
            defs,
            registry,
            depth,
        ),
        PatternModel::Ref(name) => depth > 0 && (match lookup(defs, name) {
            Some(target) => is_nullable(target, defs, registry, (depth - 1) as nat),
            None => false,
        }),
        _ => false,
    }
}

/// Whether some pattern is nullable.
pub open spec fn some_nullable(
    s: Seq<PatternModel>,
    defs: Defs,
    registry: RegistryModel,
    depth: nat,
) -> bool
    decreases depth, 0nat, s,
{
    exists|i: int| 0 <= i < s.len() && is_nullable(#[trigger] s[i], defs, registry, depth)
}

/// Whether every pattern is nullable.
pub open spec fn all_nullable(
    s: Seq<PatternModel>,
    defs: Defs,
    registry: RegistryModel,
    depth: nat,
) -> bool
    decreases depth, 0nat, s,
{
    forall|i: int| 0 <= i < s.len() ==> is_nullable(#[trigger] s[i], defs, registry, depth)
}

/// Whether some exception matches the text.
pub open spec fn excluded(
    except: Seq<PatternModel>,
    text: Text,
    defs: Defs,
    registry: RegistryModel,
    context: Bindings,
    depth: nat,
) -> bool
    decreases depth, 0nat, except,
{
    depth > 0 && exists|i: int|
        0 <= i < except.len() && is_nullable(
            text_derivative(#[trigger] except[i], text, defs, registry, context, (depth - 1) as nat),
            defs,
            registry,
            (depth - 1) as nat,
        )
}

/// The derivative of a pattern with respect to a run of text.
pub open spec fn text_derivative(
    p: PatternModel,
    text: Text,
    defs: Defs,
    registry: RegistryModel,
    context: Bindings,
    depth: nat,
) -> PatternModel
    decreases depth, 0nat, p,
{
    match p {
        PatternModel::Text => PatternModel::Text,
        PatternModel::Data { datatype, datatype_library, params, except, context: c } =>
            if data_accepts(registry, datatype_library, datatype, params, text, context)
                && !excluded(except, text, defs, registry, context, depth) {
                PatternModel::Empty
            } else {
                PatternModel::NotAllowed
            },
        PatternModel::Value { value, datatype, datatype_library, namespace, context: c } =>
            if value_accepts(
                registry,
                datatype_library,
                datatype,
                value,
                literal_bindings(namespace, c),
                text,
                context,
            ) {
                PatternModel::Empty
            } else {
                PatternModel::NotAllowed
            },
        PatternModel::List(values) => if values.len() > 0 && depth > 0 && list_accepts(
            values[0],
            tokens(text),
            defs,
            registry,
            context,
            (depth - 1) as nat,
        ) {
            PatternModel::Empty
        } else {
            PatternModel::NotAllowed
        },
        PatternModel::Group(values) => positions_derivative(
            values,
            text_derivatives(values, text, defs, registry, context, depth),
            true,
            Container::Group,
            defs,
            depth,
        ),
        PatternModel::Interleave(values) => positions_derivative(
            values,
            text_derivatives(values, text, defs, registry, context, depth),
            false,
            Container::Interleave,
            defs,
            depth,
        ),
        PatternModel::Choice(values) => choice_of(
            text_derivatives(values, text, defs, registry, context, depth),
        ),
        PatternModel::OneOrMore(values) => if values.len() > 0 {
            repetition_derivative(
                text_derivative(values[0], text, defs, registry, context, depth),
                p,
            )
        } else {
            PatternModel::NotAllowed
        },
        PatternModel::Ref(name) => if depth > 0 {
            match lookup(defs, name) {
                Some(target) => text_derivative(
                    target,
                    text,
                    defs,
                    registry,
                    context,
                    (depth - 1) as nat,
                ),
                None => PatternModel::NotAllowed,
            }
        } else {
            PatternModel::NotAllowed
        },
        _ => PatternModel::NotAllowed,
    }
}

/// The derivative of each pattern with respect to a run of text.
pub open spec fn text_derivatives(
    s: Seq<PatternModel>,
    text: Text,
    defs: Defs,
    registry: RegistryModel,
    context: Bindings,
    depth: nat,
) -> Seq<PatternModel>
    decreases depth, 0nat, s,
{
    Seq::new(
        s.len(),
        |i: int|
            if 0 <= i < s.len() {
                text_derivative(s[i], text, defs, registry, context, depth)
            } else {
                PatternModel::Empty
            },
    )
}

/// Whether a `list`'s pattern matches a sequence of tokens.
pub open spec fn list_accepts(
    p: PatternModel,
    parts: Seq<Text>,
    defs: Defs,
    registry: RegistryModel,
    context: Bindings,
    depth: nat,
) -> bool
    decreases depth, 1 + parts.len(), p,
{
    if parts.len() == 0 {
        structurally_empty(p, defs, depth)
    } else {
        let derived = text_derivative(p, parts[0], defs, registry, context, depth);
        !(derived is NotAllowed) && list_accepts(
            derived,
            parts.drop_first(),
            defs,
            registry,
            context,
            depth,
        )
    }
}

/// Whether an attribute's value matches a pattern. A value of nothing but white space
/// also does where nothing in the pattern wants text.
pub open spec fn value_fits(
    p: PatternModel,
    value: Text,
    defs: Defs,
    registry: RegistryModel,
    context: Bindings,
    depth: nat,
) -> bool {
    let derived = text_derivative(p, value, defs, registry, context, depth);
    ||| !(derived is NotAllowed) && structurally_empty(derived, defs, depth)
    ||| blank(value) && !expects_text(p, defs, depth)
}

/// The derivative of a pattern with respect to an attribute. Attributes have no order, so
/// a group is derived at every position, like an interleave.
pub open spec fn attribute_derivative(
    p: PatternModel,
    name: NameView,
    value: Text,
    defs: Defs,
    registry: RegistryModel,
    context: Bindings,
    depth: nat,
) -> PatternModel
    decreases depth, p,
{
    match p {
        PatternModel::Attribute { name: class, body, context: c } => if holds_name(
            class,
            name.namespace,
            name.local,
        ) && body.len() > 0 && value_fits(body[0], value, defs, registry, context, depth) {
            PatternModel::Empty
        } else {
            PatternModel::NotAllowed
        },
        PatternModel::Group(values) => positions_derivative(
            values,
            attribute_derivatives(values, name, value, defs, registry, context, depth),
            false,
            Container::Group,
            defs,
            depth,
        ),
        PatternModel::Interleave(values) => positions_derivative(
            values,
            attribute_derivatives(values, name, value, defs, registry, context, depth),
            false,
            Container::Interleave,
            defs,
            depth,
        ),
        PatternModel::Choice(values) => choice_of(
            attribute_derivatives(values, name, value, defs, registry, context, depth),
        ),
        PatternModel::OneOrMore(values) => if values.len() > 0 {
            repetition_derivative(
                attribute_derivative(values[0], name, value, defs, registry, context, depth),
                p,
            )
        } else {
            PatternModel::NotAllowed
        },
        PatternModel::Ref(target_name) => if depth > 0 {
            match lookup(defs, target_name) {
                Some(target) => attribute_derivative(
                    target,
                    name,
                    value,
                    defs,
                    registry,
                    context,
                    (depth - 1) as nat,
                ),
                None => PatternModel::NotAllowed,
            }
        } else {
            PatternModel::NotAllowed
        },
        _ => PatternModel::NotAllowed,
    }
}

/// The derivative of each pattern with respect to an attribute.
pub open spec fn attribute_derivatives(
    s: Seq<PatternModel>,
    name: NameView,
    value: Text,
    defs: Defs,
    registry: RegistryModel,
    context: Bindings,
    depth: nat,
) -> Seq<PatternModel>
    decreases depth, s,
{
    Seq::new(
        s.len(),
        |i: int|
            if 0 <= i < s.len() {
                attribute_derivative(s[i], name, value, defs, registry, context, depth)
            } else {
                PatternModel::Empty
            },
    )
}

/// What a child element can be: of an element pattern, by its name class and its body,
/// whether the child is what it describes.
pub type Event = spec_fn(NameModel, Seq<PatternModel>) -> bool;

/// What text can be: of a pattern of data, whether the text is what it describes.
pub type Reading = spec_fn(PatternModel) -> bool;

/// A child: text, or an element.
pub enum Child {
    Text(Reading),
    Element(Event),
}

/// A child element of the given name, whatever is inside it.
pub open spec fn named(name: NameView) -> Child {
    Child::Element(
        |class: NameModel, body: Seq<PatternModel>| holds_name(class, name.namespace, name.local),
    )
}

/// What is left of `text` after a child, which is `text` again after text.
pub open spec fn text_left(child: Child) -> PatternModel {
    if child is Text {
        PatternModel::Text
    } else {
        PatternModel::NotAllowed
    }
}

/// Whether a child is text that a pattern of data describes.
pub open spec fn read_as(p: PatternModel, child: Child) -> bool {
    child is Text && (child->Text_0)(p)
}

/// What is left of a pattern of data after a child.
pub open spec fn data_left(p: PatternModel, child: Child) -> PatternModel {
    if read_as(p, child) {
        PatternModel::Empty
    } else {
        PatternModel::NotAllowed
    }
}

/// The derivative of a pattern with respect to a child.
pub open spec fn child_derivative(p: PatternModel, child: Child, defs: Defs, depth: nat) ->
    PatternModel
    decreases depth, p,
{
    match p {
        PatternModel::Text => text_left(child),
        PatternModel::Data { datatype, datatype_library, params, except, context } => data_left(
            p,
            child,
        ),
        PatternModel::Value { value, datatype, datatype_library, namespace, context } => data_left(
            p,
            child,
        ),
        PatternModel::List(values) => data_left(p, child),
        PatternModel::Element { name: class, body, context } => if child is Element && (
        child->Element_0)(class, body) {
            PatternModel::Empty
        } else {
            PatternModel::NotAllowed
        },
        PatternModel::Group(values) => positions_derivative(
            values,
            child_derivatives(values, child, defs, depth),
            true,
            Container::Group,
            defs,
            depth,
        ),
        PatternModel::Interleave(values) => positions_derivative(
            values,
            child_derivatives(values, child, defs, depth),
            false,
            Container::Interleave,
            defs,
            depth,
        ),
        PatternModel::Choice(values) => choice_of(child_derivatives(values, child, defs, depth)),
        PatternModel::OneOrMore(values) => if values.len() > 0 {
            repetition_derivative(child_derivative(values[0], child, defs, depth), p)
        } else {
            PatternModel::NotAllowed
        },
        PatternModel::Ref(target_name) => if depth > 0 {
            match lookup(defs, target_name) {
                Some(target) => child_derivative(target, child, defs, (depth - 1) as nat),
                None => PatternModel::NotAllowed,
            }
        } else {
            PatternModel::NotAllowed
        },
        _ => PatternModel::NotAllowed,
    }
}

/// The derivative of each pattern with respect to a child.
pub open spec fn child_derivatives(
    s: Seq<PatternModel>,
    child: Child,
    defs: Defs,
    depth: nat,
) -> Seq<PatternModel>
    decreases depth, s,
{
    Seq::new(
        s.len(),
        |i: int|
            if 0 <= i < s.len() {
                child_derivative(s[i], child, defs, depth)
            } else {
                PatternModel::Empty
            },
    )
}

/// Whether some attribute that an attribute derivative would look at has the given name,
/// whatever its value.
pub open spec fn knows_attribute(p: PatternModel, name: NameView, defs: Defs, depth: nat) -> bool
    decreases depth, p,
{
    match p {
        PatternModel::Attribute { name: class, body, context } => holds_name(
            class,
            name.namespace,
            name.local,
        ),
        PatternModel::Group(values) => some_know_attribute(values, name, defs, depth),
        PatternModel::Interleave(values) => some_know_attribute(values, name, defs, depth),
        PatternModel::Choice(values) => some_know_attribute(values, name, defs, depth),
        PatternModel::OneOrMore(values) => values.len() > 0 && knows_attribute(
            values[0],
            name,
            defs,
            depth,
        ),
        PatternModel::Ref(target_name) => depth > 0 && (match lookup(defs, target_name) {
            Some(target) => knows_attribute(target, name, defs, (depth - 1) as nat),
            None => false,
        }),
        _ => false,
    }
}

/// Whether some pattern has an attribute of the given name.
pub open spec fn some_know_attribute(
    s: Seq<PatternModel>,
    name: NameView,
    defs: Defs,
    depth: nat,
) -> bool
    decreases depth, s,
{
    exists|i: int| 0 <= i < s.len() && knows_attribute(#[trigger] s[i], name, defs, depth)
}

/// The contents of the elements of the given name that can be next.
pub open spec fn element_contents(p: PatternModel, name: NameView, defs: Defs, depth: nat) -> Seq<
    PatternModel,
>
    decreases depth, p, 0nat,
{
    match p {
        PatternModel::Element { name: class, body, context } => if holds_name(
            class,
            name.namespace,
            name.local,
        ) && body.len() > 0 {
            seq![body[0]]
        } else {
            Seq::empty()
        },
        PatternModel::Choice(values) => contents_of_all(values, name, defs, depth, values.len()),
        PatternModel::Interleave(values) => contents_of_all(
            values,
            name,
            defs,
            depth,
            values.len(),
        ),
        PatternModel::Group(values) => contents_in_order(values, name, defs, depth, values.len()),
        PatternModel::OneOrMore(values) => if values.len() > 0 {
            element_contents(values[0], name, defs, depth)
        } else {
            Seq::empty()
        },
        PatternModel::Ref(target_name) => if depth > 0 {
            match lookup(defs, target_name) {
                Some(target) => element_contents(target, name, defs, (depth - 1) as nat),
                None => Seq::empty(),
            }
        } else {
            Seq::empty()
        },
        _ => Seq::empty(),
    }
}

/// The contents of the elements in the first `n` patterns.
pub open spec fn contents_of_all(
    s: Seq<PatternModel>,
    name: NameView,
    defs: Defs,
    depth: nat,
    n: nat,
) -> Seq<PatternModel>
    decreases depth, s, n,
{
    if n == 0 || n > s.len() {
        Seq::empty()
    } else {
        contents_of_all(s, name, defs, depth, (n - 1) as nat) + element_contents(
            s[n - 1],
            name,
            defs,
            depth,
        )
    }
}

/// The contents of the elements in the first `n` patterns of a group, as far as they can
/// be next.
pub open spec fn contents_in_order(
    s: Seq<PatternModel>,
    name: NameView,
    defs: Defs,
    depth: nat,
    n: nat,
) -> Seq<PatternModel>
    decreases depth, s, n,
{
    if n == 0 || n > s.len() {
        Seq::empty()
    } else {
        let rest = contents_in_order(s, name, defs, depth, (n - 1) as nat);
        if prefix_empty(s, n - 1, defs, depth) {
            rest + element_contents(s[n - 1], name, defs, depth)
        } else {
            rest
        }
    }
}

/// What the content of a child element of the given name must be, where it can be next.
pub open spec fn child_content(p: PatternModel, name: NameView, defs: Defs, depth: nat) -> Option<
    PatternModel,
> {
    let found = element_contents(p, name, defs, depth);
    if found.len() == 0 {
        None
    } else {
        Some(choice_of(found))
    }
}

// ---------------------------------------------------------------------
// The functions
// ---------------------------------------------------------------------

/// The names and values of parameters.
pub fn param_pairs<'a>(params: &'a Vec<Param>) -> (r: Vec<(&'a str, &'a str)>)
    ensures
        pairs(r@) == param_texts(params_of(params@)),
{
    let mut out: Vec<(&'a str, &'a str)> = Vec::new();
    let mut i: usize = 0;
    while i < params.len()
        invariant
            i <= params.len(),
            out.len() == i,
            forall|j: int|
                0 <= j < i ==> (#[trigger] out@[j]).0@ == params@[j].name@ && out@[j].1@
                    == params@[j].value@,
        decreases params.len() - i,
    {
        out.push((params[i].name.as_str(), params[i].value.as_str()));
        i += 1;
    }
    assert(pairs(out@) =~= param_texts(params_of(params@)));
    out
}

/// The context by which a `value` pattern's own text is resolved. It is built from the
/// schema, never from the document.
pub fn schema_value_context(namespace: &Option<String>, schema_context: &Context) -> (r:
    DatatypeContext)
    ensures
        r@ == literal_bindings(opt_text(*namespace), schema_context@),
{
    let mut bindings: Vec<(String, String)> = Vec::new();
    let map = &schema_context.namespaces;
    let mut i: usize = 0;
    while i < map.len()
        invariant
            i <= map@.len(),
            bindings.len() == i,
            forall|j: int|
                0 <= j < i ==> (#[trigger] bindings@[j]).0@ == map@[j].0 && bindings@[j].1@
                    == map@[j].1,
        decreases map@.len() - i,
    {
        bindings.push((map.key_at(i).clone(), map.value_at(i).clone()));
        i += 1;
    }
    bindings.push((String::new(), copy_or_empty(namespace)));
    let r = DatatypeContext::from_bindings(bindings);
    assert(r@ =~= literal_bindings(opt_text(*namespace), schema_context@));
    r
}

/// Whether `pattern` is satisfied by no event at all; see [`structurally_empty`].
pub fn structurally_nullable(pattern: &Pattern, definitions: &Definitions, depth: u64) -> (r: bool)
    ensures
        r == structurally_empty(pattern@, definitions@, depth as nat),
    decreases depth, pattern,
{
    proof {
        pattern.lemma_model();
    }
    match pattern {
        Pattern::Attribute { name, body, context } => true,
        Pattern::Empty => true,
        Pattern::Text => true,
        Pattern::List(values) => values.len() > 0 && structurally_nullable(
            &values[0],
            definitions,
            depth,
        ),
        Pattern::Choice(values) => {
            let mut i: usize = 0;
            while i < values.len()
                invariant
                    i <= values.len(),
                    pattern matches Pattern::Choice(v) && v == values,
                    pattern@ == PatternModel::Choice(patterns_of(values@)),
                    forall|j: int|
                        0 <= j < i ==> !structurally_empty(
                            #[trigger] patterns_of(values@)[j],
                            definitions@,
                            depth as nat,
                        ),
                decreases values.len() - i,
            {
                if structurally_nullable(&values[i], definitions, depth) {
                    assert(structurally_empty(
                        patterns_of(values@)[i as int],
                        definitions@,
                        depth as nat,
                    ));
                    assert(some_structurally_empty(
                        patterns_of(values@),
                        definitions@,
                        depth as nat,
                    ));
                    return true;
                }
                i += 1;
            }
            assert(!some_structurally_empty(patterns_of(values@), definitions@, depth as nat));
            false
        },
        Pattern::Group(values) => all_structurally_nullable(values, definitions, depth),
        Pattern::Interleave(values) => all_structurally_nullable(values, definitions, depth),
        Pattern::OneOrMore(values) => values.len() > 0 && structurally_nullable(
            &values[0],
            definitions,
            depth,
        ),
        Pattern::Ref(name) => {
            if depth == 0 {
                return false;
            }
            match definitions.get(name.as_str()) {
                Some(target) => structurally_nullable(target, definitions, depth - 1),
                None => false,
            }
        },
        _ => false,
    }
}

/// Whether every pattern is satisfied by no event at all.
fn all_structurally_nullable(values: &Vec<Pattern>, definitions: &Definitions, depth: u64) -> (r:
    bool)
    ensures
        r == all_structurally_empty(patterns_of(values@), definitions@, depth as nat),
    decreases depth, values,
{
    let mut i: usize = 0;
    while i < values.len()
        invariant
            i <= values.len(),
            forall|j: int|
                0 <= j < i ==> structurally_empty(
                    #[trigger] patterns_of(values@)[j],
                    definitions@,
                    depth as nat,
                ),
        decreases values.len() - i,
    {
        if !structurally_nullable(&values[i], definitions, depth) {
            assert(!structurally_empty(
                patterns_of(values@)[i as int],
                definitions@,
                depth as nat,
            ));
            return false;
        }
        i += 1;
    }
    true
}

/// Whether a position of `pattern` that can be next wants text; see [`expects_text`].
pub fn wants_text(pattern: &Pattern, definitions: &Definitions, depth: u64) -> (r: bool)
    ensures
        r == expects_text(pattern@, definitions@, depth as nat),
    decreases depth, pattern,
{
    proof {
        pattern.lemma_model();
    }
    match pattern {
        Pattern::Text => true,
        Pattern::Data { datatype, datatype_library, params, except, context } => true,
        Pattern::Value { value, datatype, datatype_library, namespace, context } => true,
        Pattern::List(values) => true,
        Pattern::Choice(values) => {
            let mut i: usize = 0;
            while i < values.len()
                invariant
                    i <= values.len(),
                    pattern matches Pattern::Choice(v) && v == values,
                    pattern@ == PatternModel::Choice(patterns_of(values@)),
                    forall|j: int|
                        0 <= j < i ==> expects_text(
                            #[trigger] patterns_of(values@)[j],
                            definitions@,
                            depth as nat,
                        ),
                decreases values.len() - i,
            {
                if !wants_text(&values[i], definitions, depth) {
                    assert(!expects_text(
                        patterns_of(values@)[i as int],
                        definitions@,
                        depth as nat,
                    ));
                    assert(!all_expect_text(patterns_of(values@), definitions@, depth as nat));
                    return false;
                }
                i += 1;
            }
            assert(all_expect_text(patterns_of(values@), definitions@, depth as nat));
            true
        },
        Pattern::Interleave(values) => {
            let mut i: usize = 0;
            while i < values.len()
                invariant
                    i <= values.len(),
                    pattern matches Pattern::Interleave(v) && v == values,
                    pattern@ == PatternModel::Interleave(patterns_of(values@)),
                    forall|j: int|
                        0 <= j < i ==> !expects_text(
                            #[trigger] patterns_of(values@)[j],
                            definitions@,
                            depth as nat,
                        ),
                decreases values.len() - i,
            {
                if wants_text(&values[i], definitions, depth) {
                    assert(expects_text(
                        patterns_of(values@)[i as int],
                        definitions@,
                        depth as nat,
                    ));
                    assert(some_expect_text(patterns_of(values@), definitions@, depth as nat));
                    return true;
                }
                i += 1;
            }
            assert(!some_expect_text(patterns_of(values@), definitions@, depth as nat));
            false
        },
        Pattern::Group(values) => {
            let ghost models = patterns_of(values@);
            let mut i: usize = 0;
            while i < values.len()
                invariant
                    i <= values.len(),
                    pattern matches Pattern::Group(v) && v == values,
                    models == patterns_of(values@),
                    pattern@ == PatternModel::Group(models),
                    prefix_empty(models, i as int, definitions@, depth as nat),
                    forall|j: int|
                        0 <= j < i ==> !expects_text(
                            #[trigger] models[j],
                            definitions@,
                            depth as nat,
                        ),
                decreases values.len() - i,
            {
                if wants_text(&values[i], definitions, depth) {
                    assert(expects_text(models[i as int], definitions@, depth as nat));
                    assert(next_expect_text(models, definitions@, depth as nat));
                    return true;
                }
                if !structurally_nullable(&values[i], definitions, depth) {
                    assert(!structurally_empty(models[i as int], definitions@, depth as nat));
                    assert(!next_expect_text(models, definitions@, depth as nat));
                    return false;
                }
                i += 1;
            }
            assert(!next_expect_text(models, definitions@, depth as nat));
            false
        },
        Pattern::OneOrMore(values) => values.len() > 0 && wants_text(
            &values[0],
            definitions,
            depth,
        ),
        Pattern::Ref(name) => {
            if depth == 0 {
                return false;
            }
            match definitions.get(name.as_str()) {
                Some(target) => wants_text(target, definitions, depth - 1),
                None => false,
            }
        },
        _ => false,
    }
}

/// What is left of a position of a group once a later one has matched; see
/// [`closed_position`].
pub fn close_child_position(pattern: &Pattern, definitions: &Definitions, depth: u64) -> (r:
    Pattern)
    ensures
        r@ == closed_position(pattern@, definitions@, depth as nat),
    decreases depth, pattern,
{
    proof {
        pattern.lemma_model();
    }
    match pattern {
        Pattern::Attribute { name, body, context } => copy_pattern(pattern),
        Pattern::Empty => Pattern::Empty,
        Pattern::Text => Pattern::Empty,
        Pattern::List(values) => {
            if values.len() > 0 && structurally_nullable(&values[0], definitions, depth) {
                Pattern::Empty
            } else {
                Pattern::NotAllowed
            }
        },
        Pattern::Group(values) => group(close_child_positions(values, definitions, depth)),
        Pattern::Interleave(values) => interleave(
            close_child_positions(values, definitions, depth),
        ),
        Pattern::Choice(values) => choice(close_child_positions(values, definitions, depth)),
        Pattern::OneOrMore(values) => {
            if values.len() > 0 {
                close_child_position(&values[0], definitions, depth)
            } else {
                Pattern::NotAllowed
            }
        },
        Pattern::Ref(name) => {
            if depth == 0 {
                return Pattern::NotAllowed;
            }
            match definitions.get(name.as_str()) {
                Some(target) => close_child_position(target, definitions, depth - 1),
                None => Pattern::NotAllowed,
            }
        },
        _ => Pattern::NotAllowed,
    }
}

/// What is left of each position.
fn close_child_positions(values: &Vec<Pattern>, definitions: &Definitions, depth: u64) -> (r: Vec<
    Pattern,
>)
    ensures
        patterns_of(r@) == closed_positions(patterns_of(values@), definitions@, depth as nat),
    decreases depth, values,
{
    let ghost models = patterns_of(values@);
    let mut out: Vec<Pattern> = Vec::new();
    let mut i: usize = 0;
    while i < values.len()
        invariant
            i <= values.len(),
            models == patterns_of(values@),
            out.len() == i,
            forall|j: int|
                0 <= j < i ==> (#[trigger] patterns_of(out@)[j]) == closed_position(
                    models[j],
                    definitions@,
                    depth as nat,
                ),
        decreases values.len() - i,
    {
        let closed = close_child_position(&values[i], definitions, depth);
        let ghost before = patterns_of(out@);
        out.push(closed);
        i += 1;
        assert(patterns_of(out@) =~= before.push(closed@));
    }
    assert(patterns_of(out@) =~= closed_positions(models, definitions@, depth as nat));
    out
}

/// The container around its operands.
fn contain(container: &Container, values: Vec<Pattern>) -> (r: Pattern)
    ensures
        r@ == contained(*container, patterns_of(values@)),
{
    match container {
        Container::Group => group(values),
        Container::Interleave => interleave(values),
    }
}

/// The operands once the one at `index` has matched.
fn branch(
    values: &Vec<Pattern>,
    derived: &Vec<Pattern>,
    sequential: bool,
    index: usize,
    definitions: &Definitions,
    depth: u64,
) -> (r: Vec<Pattern>)
    requires
        derived@.len() == values@.len(),
    ensures
        patterns_of(r@) == branch_at(
            patterns_of(values@),
            patterns_of(derived@),
            sequential,
            index as int,
            definitions@,
            depth as nat,
        ),
{
    let ghost models = patterns_of(values@);
    let ghost changed = patterns_of(derived@);
    let ghost want = branch_at(
        models,
        changed,
        sequential,
        index as int,
        definitions@,
        depth as nat,
    );
    let mut out: Vec<Pattern> = Vec::new();
    let mut i: usize = 0;
    while i < values.len()
        invariant
            i <= values.len(),
            derived@.len() == values@.len(),
            models == patterns_of(values@),
            changed == patterns_of(derived@),
            want == branch_at(
                models,
                changed,
                sequential,
                index as int,
                definitions@,
                depth as nat,
            ),
            out.len() == i,
            forall|j: int| 0 <= j < i ==> (#[trigger] patterns_of(out@)[j]) == want[j],
        decreases values.len() - i,
    {
        let item = if i == index {
            copy_pattern(&derived[i])
        } else if sequential && i < index {
            close_child_position(&values[i], definitions, depth)
        } else {
            copy_pattern(&values[i])
        };
        let ghost before = patterns_of(out@);
        assert(item@ == want[i as int]);
        out.push(item);
        i += 1;
        assert(patterns_of(out@) =~= before.push(item@));
    }
    assert(patterns_of(out@) =~= want);
    out
}

/// The derivative of a group or an interleave, from the derivatives of its operands: the
/// alternatives of matching at each position that the event fits. If `sequential`, a
/// position is reachable only once every earlier operand can be passed over, and the
/// earlier ones are closed then; otherwise every position is reachable and the others
/// stay open.
pub fn deriv_positions(
    values: &Vec<Pattern>,
    derived: Vec<Pattern>,
    sequential: bool,
    container: Container,
    definitions: &Definitions,
    depth: u64,
) -> (r: Pattern)
    requires
        derived@.len() == values@.len(),
    ensures
        r@ == positions_derivative(
            patterns_of(values@),
            patterns_of(derived@),
            sequential,
            container,
            definitions@,
            depth as nat,
        ),
{
    let ghost models = patterns_of(values@);
    let ghost changed = patterns_of(derived@);
    let mut found: Vec<Pattern> = Vec::new();
    let mut reachable: bool = true;
    let mut i: usize = 0;
    assert(patterns_of(found@) =~= Seq::empty());
    while i < values.len()
        invariant
            i <= values.len(),
            derived@.len() == values@.len(),
            models == patterns_of(values@),
            changed == patterns_of(derived@),
            reachable == (sequential ==> prefix_empty(
                models,
                i as int,
                definitions@,
                depth as nat,
            )),
            patterns_of(found@) == alternatives(
                models,
                changed,
                sequential,
                container,
                definitions@,
                depth as nat,
                i as nat,
            ),
        decreases values.len() - i,
    {
        if reachable && !is_not_allowed(&derived[i]) {
            let operands = branch(values, &derived, sequential, i, definitions, depth);
            let whole = contain(&container, operands);
            let ghost before = patterns_of(found@);
            found.push(whole);
            assert(patterns_of(found@) =~= before.push(whole@));
        }
        if sequential {
            let passed = structurally_nullable(&values[i], definitions, depth);
            proof {
                let m = models[i as int];
                assert(passed == structurally_empty(m, definitions@, depth as nat));
                if reachable && passed {
                    assert(prefix_empty(models, i + 1, definitions@, depth as nat));
                }
                if prefix_empty(models, i + 1, definitions@, depth as nat) {
                    assert(structurally_empty(models[i as int], definitions@, depth as nat));
                    assert(prefix_empty(models, i as int, definitions@, depth as nat));
                }
            }
            reachable = reachable && passed;
        }
        i += 1;
    }
    choice(found)
}

/// The derivative of a repetition `whole`, from that of what is repeated.
pub fn one_or_more_deriv(derived: Pattern, whole: &Pattern) -> (r: Pattern)
    ensures
        r@ == repetition_derivative(derived@, whole@),
{
    let rest = choice(pair(copy_pattern(whole), Pattern::Empty));
    group(pair(derived, rest))
}

/// Whether `pattern` accepts that nothing more follows; see [`is_nullable`].
pub fn nullable_within(
    pattern: &Pattern,
    definitions: &Definitions,
    registry: &DatatypeRegistry,
    depth: u64,
) -> (r: bool)
    ensures
        r == is_nullable(pattern@, definitions@, registry@, depth as nat),
    decreases depth, 0nat, pattern,
{
    proof {
        pattern.lemma_model();
        reveal_strlit("");
        assert(""@ =~= Seq::<char>::empty());
    }
    match pattern {
        Pattern::Empty => true,
        Pattern::Text => true,
        Pattern::Data { datatype, datatype_library, params, except, context } => {
            let none = DatatypeContext::empty();
            text_is_data(datatype_library, datatype, params, "", registry, &none)
                && !text_matches_except(except, "", definitions, registry, &none, depth)
        },
        Pattern::Value { value, datatype, datatype_library, namespace, context } => text_is_value(
            value,
            datatype,
            datatype_library,
            namespace,
            context,
            "",
            registry,
            &DatatypeContext::empty(),
        ),
        Pattern::List(values) => values.len() > 0 && structurally_nullable(
            &values[0],
            definitions,
            depth,
        ),
        Pattern::Choice(values) => {
            let mut i: usize = 0;
            while i < values.len()
                invariant
                    i <= values.len(),
                    pattern matches Pattern::Choice(v) && v == values,
                    pattern@ == PatternModel::Choice(patterns_of(values@)),
                    forall|j: int|
                        0 <= j < i ==> !is_nullable(
                            #[trigger] patterns_of(values@)[j],
                            definitions@,
                            registry@,
                            depth as nat,
                        ),
                decreases values.len() - i,
            {
                if nullable_within(&values[i], definitions, registry, depth) {
                    assert(is_nullable(
                        patterns_of(values@)[i as int],
                        definitions@,
                        registry@,
                        depth as nat,
                    ));
                    assert(some_nullable(
                        patterns_of(values@),
                        definitions@,
                        registry@,
                        depth as nat,
                    ));
                    return true;
                }
                i += 1;
            }
            assert(!some_nullable(patterns_of(values@), definitions@, registry@, depth as nat));
            false
        },
        Pattern::Group(values) => all_nullable_within(values, definitions, registry, depth),
        Pattern::Interleave(values) => all_nullable_within(values, definitions, registry, depth),
        Pattern::OneOrMore(values) => values.len() > 0 && nullable_within(
            &values[0],
            definitions,
            registry,
            depth,
        ),
        Pattern::Ref(name) => {
            if depth == 0 {
                return false;
            }
            match definitions.get(name.as_str()) {
                Some(target) => nullable_within(target, definitions, registry, depth - 1),
                None => false,
            }
        },
        _ => false,
    }
}

/// Whether every pattern accepts that nothing more follows.
fn all_nullable_within(
    values: &Vec<Pattern>,
    definitions: &Definitions,
    registry: &DatatypeRegistry,
    depth: u64,
) -> (r: bool)
    ensures
        r == all_nullable(patterns_of(values@), definitions@, registry@, depth as nat),
    decreases depth, 0nat, values,
{
    let mut i: usize = 0;
    while i < values.len()
        invariant
            i <= values.len(),
            forall|j: int|
                0 <= j < i ==> is_nullable(
                    #[trigger] patterns_of(values@)[j],
                    definitions@,
                    registry@,
                    depth as nat,
                ),
        decreases values.len() - i,
    {
        if !nullable_within(&values[i], definitions, registry, depth) {
            assert(!is_nullable(
                patterns_of(values@)[i as int],
                definitions@,
                registry@,
                depth as nat,
            ));
            return false;
        }
        i += 1;
    }
    true
}

/// Whether a text is a value of a datatype.
fn text_is_data(
    datatype_library: &Option<String>,
    datatype: &String,
    params: &Vec<Param>,
    text: &str,
    registry: &DatatypeRegistry,
    context: &DatatypeContext,
) -> (r: bool)
    ensures
        r == data_accepts(
            registry@,
            opt_text(*datatype_library),
            datatype@,
            params_of(params@),
            text@,
            context@,
        ),
{
    let library = copy_or_empty(datatype_library);
    match registry.get(library.as_str()) {
        Some(implementation) => {
            let arguments = param_pairs(params);
            implementation.matches(datatype.as_str(), arguments.as_slice(), text, context)
        },
        None => false,
    }
}

/// Whether a text is the value that a `value` pattern gives.
fn text_is_value(
    value: &String,
    datatype: &Option<String>,
    datatype_library: &Option<String>,
    namespace: &Option<String>,
    schema_context: &Context,
    text: &str,
    registry: &DatatypeRegistry,
    context: &DatatypeContext,
) -> (r: bool)
    ensures
        r == value_accepts(
            registry@,
            opt_text(*datatype_library),
            opt_text(*datatype),
            value@,
            literal_bindings(opt_text(*namespace), schema_context@),
            text@,
            context@,
        ),
{
    let library = copy_or_empty(datatype_library);
    match registry.get(library.as_str()) {
        Some(implementation) => {
            let literal_context = schema_value_context(namespace, schema_context);
            let name = value_type_name(datatype);
            implementation.values_equal(
                name.as_str(),
                value.as_str(),
                &literal_context,
                text,
                context,
            )
        },
        None => false,
    }
}

/// The datatype by which a `value` pattern compares.
pub fn value_type_name(datatype: &Option<String>) -> (r: String)
    ensures
        r@ == value_type(opt_text(*datatype)),
{
    match datatype {
        Some(name) => name.clone(),
        None => "token".to_owned(),
    }
}

/// Whether some exception matches the text; see [`excluded`].
fn text_matches_except(
    except: &Vec<Pattern>,
    text: &str,
    definitions: &Definitions,
    registry: &DatatypeRegistry,
    context: &DatatypeContext,
    depth: u64,
) -> (r: bool)
    ensures
        r == excluded(
            patterns_of(except@),
            text@,
            definitions@,
            registry@,
            context@,
            depth as nat,
        ),
    decreases depth, 0nat, except,
{
    if depth == 0 {
        return false;
    }
    let ghost models = patterns_of(except@);
    let ghost below = (depth - 1) as nat;
    let mut i: usize = 0;
    while i < except.len()
        invariant
            i <= except.len(),
            depth > 0,
            below == (depth - 1) as nat,
            models == patterns_of(except@),
            forall|j: int|
                0 <= j < i ==> !is_nullable(
                    text_derivative(
                        #[trigger] models[j],
                        text@,
                        definitions@,
                        registry@,
                        context@,
                        below,
                    ),
                    definitions@,
                    registry@,
                    below,
                ),
        decreases except.len() - i,
    {
        let derived = deriv_text_within(
            &except[i],
            text,
            definitions,
            registry,
            context,
            depth - 1,
        );
        assert(derived@ == text_derivative(
            models[i as int],
            text@,
            definitions@,
            registry@,
            context@,
            below,
        ));
        if nullable_within(&derived, definitions, registry, depth - 1) {
            return true;
        }
        i += 1;
    }
    false
}

/// The derivative of `pattern` with respect to a run of text; see [`text_derivative`].
pub fn deriv_text_within(
    pattern: &Pattern,
    text: &str,
    definitions: &Definitions,
    registry: &DatatypeRegistry,
    context: &DatatypeContext,
    depth: u64,
) -> (r: Pattern)
    ensures
        r@ == text_derivative(
            pattern@,
            text@,
            definitions@,
            registry@,
            context@,
            depth as nat,
        ),
    decreases depth, 0nat, pattern,
{
    proof {
        pattern.lemma_model();
    }
    match pattern {
        Pattern::Text => Pattern::Text,
        Pattern::Data { datatype, datatype_library, params, except, context: c } => {
            if text_is_data(datatype_library, datatype, params, text, registry, context)
                && !text_matches_except(except, text, definitions, registry, context, depth) {
                Pattern::Empty
            } else {
                Pattern::NotAllowed
            }
        },
        Pattern::Value { value, datatype, datatype_library, namespace, context: c } => {
            if text_is_value(
                value,
                datatype,
                datatype_library,
                namespace,
                c,
                text,
                registry,
                context,
            ) {
                Pattern::Empty
            } else {
                Pattern::NotAllowed
            }
        },
        Pattern::List(values) => {
            if values.len() > 0 && depth > 0 && list_matches(
                &values[0],
                text,
                definitions,
                registry,
                context,
                depth - 1,
            ) {
                Pattern::Empty
            } else {
                Pattern::NotAllowed
            }
        },
        Pattern::Group(values) => {
            let derived = deriv_texts(values, text, definitions, registry, context, depth);
            deriv_positions(values, derived, true, Container::Group, definitions, depth)
        },
        Pattern::Interleave(values) => {
            let derived = deriv_texts(values, text, definitions, registry, context, depth);
            deriv_positions(values, derived, false, Container::Interleave, definitions, depth)
        },
        Pattern::Choice(values) => choice(
            deriv_texts(values, text, definitions, registry, context, depth),
        ),
        Pattern::OneOrMore(values) => {
            if values.len() > 0 {
                let derived = deriv_text_within(
                    &values[0],
                    text,
                    definitions,
                    registry,
                    context,
                    depth,
                );
                one_or_more_deriv(derived, pattern)
            } else {
                Pattern::NotAllowed
            }
        },
        Pattern::Ref(name) => {
            if depth == 0 {
                return Pattern::NotAllowed;
            }
            match definitions.get(name.as_str()) {
                Some(target) => deriv_text_within(
                    target,
                    text,
                    definitions,
                    registry,
                    context,
                    depth - 1,
                ),
                None => Pattern::NotAllowed,
            }
        },
        _ => Pattern::NotAllowed,
    }
}

/// The derivative of each pattern with respect to a run of text.
fn deriv_texts(
    values: &Vec<Pattern>,
    text: &str,
    definitions: &Definitions,
    registry: &DatatypeRegistry,
    context: &DatatypeContext,
    depth: u64,
) -> (r: Vec<Pattern>)
    ensures
        r@.len() == values@.len(),
        patterns_of(r@) == text_derivatives(
            patterns_of(values@),
            text@,
            definitions@,
            registry@,
            context@,
            depth as nat,
        ),
    decreases depth, 0nat, values,
{
    let ghost models = patterns_of(values@);
    let mut out: Vec<Pattern> = Vec::new();
    let mut i: usize = 0;
    while i < values.len()
        invariant
            i <= values.len(),
            models == patterns_of(values@),
            out.len() == i,
            forall|j: int|
                0 <= j < i ==> (#[trigger] patterns_of(out@)[j]) == text_derivative(
                    models[j],
                    text@,
                    definitions@,
                    registry@,
                    context@,
                    depth as nat,
                ),
        decreases values.len() - i,
    {
        let derived = deriv_text_within(&values[i], text, definitions, registry, context, depth);
        let ghost before = patterns_of(out@);
        out.push(derived);
        i += 1;
        assert(patterns_of(out@) =~= before.push(derived@));
    }
    assert(patterns_of(out@) =~= text_derivatives(
        models,
        text@,
        definitions@,
        registry@,
        context@,
        depth as nat,
    ));
    out
}

/// Whether `text`, split on white space into tokens, matches a `list`'s pattern when each
/// token is fed through in sequence.
fn list_matches(
    pattern: &Pattern,
    text: &str,
    definitions: &Definitions,
    registry: &DatatypeRegistry,
    context: &DatatypeContext,
    depth: u64,
) -> (r: bool)
    ensures
        r == list_accepts(
            pattern@,
            tokens(text@),
            definitions@,
            registry@,
            context@,
            depth as nat,
        ),
    decreases depth, 1nat, pattern,
{
    let chars = to_chars(text);
    let parts = split_tokens(chars.as_slice());
    let ghost all = char_vecs(parts@);
    let mut current = copy_pattern(pattern);
    let mut i: usize = 0;
    assert(all.skip(0) =~= all);
    while i < parts.len()
        invariant
            i <= parts.len(),
            all == char_vecs(parts@),
            all == tokens(text@),
            list_accepts(
                pattern@,
                tokens(text@),
                definitions@,
                registry@,
                context@,
                depth as nat,
            ) == list_accepts(
                current@,
                all.skip(i as int),
                definitions@,
                registry@,
                context@,
                depth as nat,
            ),
        decreases parts.len() - i,
    {
        let token = from_chars(parts[i].as_slice());
        assert(all.skip(i as int)[0] == token@);
        assert(all.skip(i as int).drop_first() =~= all.skip(i + 1));
        current = deriv_text_within(
            &current,
            token.as_str(),
            definitions,
            registry,
            context,
            depth,
        );
        if is_not_allowed(&current) {
            return false;
        }
        i += 1;
    }
    structurally_nullable(&current, definitions, depth)
}

/// Whether an attribute's value satisfies `pattern`; see [`value_fits`].
pub fn value_matches(
    pattern: &Pattern,
    value: &str,
    definitions: &Definitions,
    registry: &DatatypeRegistry,
    context: &DatatypeContext,
    depth: u64,
) -> (r: bool)
    ensures
        r == value_fits(pattern@, value@, definitions@, registry@, context@, depth as nat),
{
    let derived = deriv_text_within(pattern, value, definitions, registry, context, depth);
    if !is_not_allowed(&derived) && structurally_nullable(&derived, definitions, depth) {
        return true;
    }
    is_blank(value) && !wants_text(pattern, definitions, depth)
}

/// The derivative of `pattern` with respect to an attribute; see
/// [`attribute_derivative`].
pub fn deriv_attribute_within(
    pattern: &Pattern,
    name: &ExpandedName,
    value: &str,
    definitions: &Definitions,
    registry: &DatatypeRegistry,
    context: &DatatypeContext,
    depth: u64,
) -> (r: Pattern)
    ensures
        r@ == attribute_derivative(
            pattern@,
            name@,
            value@,
            definitions@,
            registry@,
            context@,
            depth as nat,
        ),
    decreases depth, pattern,
{
    proof {
        pattern.lemma_model();
    }
    match pattern {
        Pattern::Attribute { name: class, body, context: c } => {
            if name_class_matches(class, &name.namespace, name.local.as_str()) && body.len() > 0
                && value_matches(&body[0], value, definitions, registry, context, depth) {
                Pattern::Empty
            } else {
                Pattern::NotAllowed
            }
        },
        Pattern::Group(values) => {
            let derived = deriv_attributes(
                values,
                name,
                value,
                definitions,
                registry,
                context,
                depth,
            );
            deriv_positions(values, derived, false, Container::Group, definitions, depth)
        },
        Pattern::Interleave(values) => {
            let derived = deriv_attributes(
                values,
                name,
                value,
                definitions,
                registry,
                context,
                depth,
            );
            deriv_positions(values, derived, false, Container::Interleave, definitions, depth)
        },
        Pattern::Choice(values) => choice(
            deriv_attributes(values, name, value, definitions, registry, context, depth),
        ),
        Pattern::OneOrMore(values) => {
            if values.len() > 0 {
                let derived = deriv_attribute_within(
                    &values[0],
                    name,
                    value,
                    definitions,
                    registry,
                    context,
                    depth,
                );
                one_or_more_deriv(derived, pattern)
            } else {
                Pattern::NotAllowed
            }
        },
        Pattern::Ref(target_name) => {
            if depth == 0 {
                return Pattern::NotAllowed;
            }
            match definitions.get(target_name.as_str()) {
                Some(target) => deriv_attribute_within(
                    target,
                    name,
                    value,
                    definitions,
                    registry,
                    context,
                    depth - 1,
                ),
                None => Pattern::NotAllowed,
            }
        },
        _ => Pattern::NotAllowed,
    }
}

/// The derivative of each pattern with respect to an attribute.
fn deriv_attributes(
    values: &Vec<Pattern>,
    name: &ExpandedName,
    value: &str,
    definitions: &Definitions,
    registry: &DatatypeRegistry,
    context: &DatatypeContext,
    depth: u64,
) -> (r: Vec<Pattern>)
    ensures
        r@.len() == values@.len(),
        patterns_of(r@) == attribute_derivatives(
            patterns_of(values@),
            name@,
            value@,
            definitions@,
            registry@,
            context@,
            depth as nat,
        ),
    decreases depth, values,
{
    let ghost models = patterns_of(values@);
    let mut out: Vec<Pattern> = Vec::new();
    let mut i: usize = 0;
    while i < values.len()
        invariant
            i <= values.len(),
            models == patterns_of(values@),
            out.len() == i,
            forall|j: int|
                0 <= j < i ==> (#[trigger] patterns_of(out@)[j]) == attribute_derivative(
                    models[j],
                    name@,
                    value@,
                    definitions@,
                    registry@,
                    context@,
                    depth as nat,
                ),
        decreases values.len() - i,
    {
        let derived = deriv_attribute_within(
            &values[i],
            name,
            value,
            definitions,
            registry,
            context,
            depth,
        );
        let ghost before = patterns_of(out@);
        out.push(derived);
        i += 1;
        assert(patterns_of(out@) =~= before.push(derived@));
    }
    assert(patterns_of(out@) =~= attribute_derivatives(
        models,
        name@,
        value@,
        definitions@,
        registry@,
        context@,
        depth as nat,
    ));
    out
}

/// The derivative of `pattern` with respect to a child element of the given name; see
/// [`child_derivative`].
pub fn deriv_element_within(
    pattern: &Pattern,
    name: &ExpandedName,
    definitions: &Definitions,
    depth: u64,
) -> (r: Pattern)
    ensures
        r@ == child_derivative(pattern@, named(name@), definitions@, depth as nat),
    decreases depth, pattern,
{
    proof {
        pattern.lemma_model();
    }
    match pattern {
        Pattern::Element { name: class, body, context } => {
            if name_class_matches(class, &name.namespace, name.local.as_str()) {
                Pattern::Empty
            } else {
                Pattern::NotAllowed
            }
        },
        Pattern::Group(values) => {
            let derived = deriv_elements(values, name, definitions, depth);
            deriv_positions(values, derived, true, Container::Group, definitions, depth)
        },
        Pattern::Interleave(values) => {
            let derived = deriv_elements(values, name, definitions, depth);
            deriv_positions(values, derived, false, Container::Interleave, definitions, depth)
        },
        Pattern::Choice(values) => choice(deriv_elements(values, name, definitions, depth)),
        Pattern::OneOrMore(values) => {
            if values.len() > 0 {
                let derived = deriv_element_within(&values[0], name, definitions, depth);
                one_or_more_deriv(derived, pattern)
            } else {
                Pattern::NotAllowed
            }
        },
        Pattern::Ref(target_name) => {
            if depth == 0 {
                return Pattern::NotAllowed;
            }
            match definitions.get(target_name.as_str()) {
                Some(target) => deriv_element_within(target, name, definitions, depth - 1),
                None => Pattern::NotAllowed,
            }
        },
        _ => Pattern::NotAllowed,
    }
}

/// The derivative of each pattern with respect to a child element of the given name.
fn deriv_elements(
    values: &Vec<Pattern>,
    name: &ExpandedName,
    definitions: &Definitions,
    depth: u64,
) -> (r: Vec<Pattern>)
    ensures
        r@.len() == values@.len(),
        patterns_of(r@) == child_derivatives(
            patterns_of(values@),
            named(name@),
            definitions@,
            depth as nat,
        ),
    decreases depth, values,
{
    let ghost models = patterns_of(values@);
    let mut out: Vec<Pattern> = Vec::new();
    let mut i: usize = 0;
    while i < values.len()
        invariant
            i <= values.len(),
            models == patterns_of(values@),
            out.len() == i,
            forall|j: int|
                0 <= j < i ==> (#[trigger] patterns_of(out@)[j]) == child_derivative(
                    models[j],
                    named(name@),
                    definitions@,
                    depth as nat,
                ),
        decreases values.len() - i,
    {
        let derived = deriv_element_within(&values[i], name, definitions, depth);
        let ghost before = patterns_of(out@);
        out.push(derived);
        i += 1;
        assert(patterns_of(out@) =~= before.push(derived@));
    }
    assert(patterns_of(out@) =~= child_derivatives(
        models,
        named(name@),
        definitions@,
        depth as nat,
    ));
    out
}

/// Whether some attribute that can be matched has the given name; see
/// [`knows_attribute`]. It tells an attribute that is not allowed at all apart from one
/// whose value is wrong.
pub fn attribute_name_known_within(
    pattern: &Pattern,
    name: &ExpandedName,
    definitions: &Definitions,
    depth: u64,
) -> (r: bool)
    ensures
        r == knows_attribute(pattern@, name@, definitions@, depth as nat),
    decreases depth, pattern,
{
    proof {
        pattern.lemma_model();
    }
    match pattern {
        Pattern::Attribute { name: class, body, context } => name_class_matches(
            class,
            &name.namespace,
            name.local.as_str(),
        ),
        Pattern::Group(values) => some_attribute_name_known(values, name, definitions, depth),
        Pattern::Interleave(values) => some_attribute_name_known(values, name, definitions, depth),
        Pattern::Choice(values) => some_attribute_name_known(values, name, definitions, depth),
        Pattern::OneOrMore(values) => values.len() > 0 && attribute_name_known_within(
            &values[0],
            name,
            definitions,
            depth,
        ),
        Pattern::Ref(target_name) => {
            if depth == 0 {
                return false;
            }
            match definitions.get(target_name.as_str()) {
                Some(target) => attribute_name_known_within(target, name, definitions, depth - 1),
                None => false,
            }
        },
        _ => false,
    }
}

/// Whether some pattern has an attribute of the given name.
fn some_attribute_name_known(
    values: &Vec<Pattern>,
    name: &ExpandedName,
    definitions: &Definitions,
    depth: u64,
) -> (r: bool)
    ensures
        r == some_know_attribute(patterns_of(values@), name@, definitions@, depth as nat),
    decreases depth, values,
{
    let mut i: usize = 0;
    while i < values.len()
        invariant
            i <= values.len(),
            forall|j: int|
                0 <= j < i ==> !knows_attribute(
                    #[trigger] patterns_of(values@)[j],
                    name@,
                    definitions@,
                    depth as nat,
                ),
        decreases values.len() - i,
    {
        if attribute_name_known_within(&values[i], name, definitions, depth) {
            assert(knows_attribute(
                patterns_of(values@)[i as int],
                name@,
                definitions@,
                depth as nat,
            ));
            return true;
        }
        i += 1;
    }
    false
}

/// Appends the contents of the elements of the given name that can be next; see
/// [`element_contents`].
fn collect_element_contents(
    pattern: &Pattern,
    name: &ExpandedName,
    definitions: &Definitions,
    out: &mut Vec<Pattern>,
    depth: u64,
)
    ensures
        patterns_of(final(out)@) == patterns_of(old(out)@) + element_contents(
            pattern@,
            name@,
            definitions@,
            depth as nat,
        ),
    decreases depth, pattern,
{
    let ghost before = patterns_of(out@);
    proof {
        pattern.lemma_model();
        assert(before + Seq::<PatternModel>::empty() =~= before);
    }
    match pattern {
        Pattern::Element { name: class, body, context } => {
            if name_class_matches(class, &name.namespace, name.local.as_str()) && body.len() > 0 {
                let content = copy_pattern(&body[0]);
                out.push(content);
                assert(patterns_of(out@) =~= before + seq![content@]);
            }
        },
        Pattern::Choice(values) => {
            collect_all_contents(values, name, definitions, out, depth);
        },
        Pattern::Interleave(values) => {
            collect_all_contents(values, name, definitions, out, depth);
        },
        Pattern::Group(values) => {
            collect_contents_in_order(values, name, definitions, out, depth);
        },
        Pattern::OneOrMore(values) => {
            if values.len() > 0 {
                collect_element_contents(&values[0], name, definitions, out, depth);
            }
        },
        Pattern::Ref(target_name) => {
            if depth > 0 {
                match definitions.get(target_name.as_str()) {
                    Some(target) => {
                        collect_element_contents(target, name, definitions, out, depth - 1);
                    },
                    None => {},
                }
            }
        },
        _ => {},
    }
}

/// Appends the contents of the elements in each pattern.
fn collect_all_contents(
    values: &Vec<Pattern>,
    name: &ExpandedName,
    definitions: &Definitions,
    out: &mut Vec<Pattern>,
    depth: u64,
)
    ensures
        patterns_of(final(out)@) == patterns_of(old(out)@) + contents_of_all(
            patterns_of(values@),
            name@,
            definitions@,
            depth as nat,
            values@.len(),
        ),
    decreases depth, values,
{
    let ghost before = patterns_of(out@);
    let ghost models = patterns_of(values@);
    let mut i: usize = 0;
    assert(before + Seq::<PatternModel>::empty() =~= before);
    while i < values.len()
        invariant
            i <= values.len(),
            models == patterns_of(values@),
            patterns_of(out@) == before + contents_of_all(
                models,
                name@,
                definitions@,
                depth as nat,
                i as nat,
            ),
        decreases values.len() - i,
    {
        collect_element_contents(&values[i], name, definitions, out, depth);
        i += 1;
        assert(patterns_of(out@) =~= before + contents_of_all(
            models,
            name@,
            definitions@,
            depth as nat,
            i as nat,
        ));
    }
}

/// Appends the contents of the elements in each pattern of a group that can be next.
fn collect_contents_in_order(
    values: &Vec<Pattern>,
    name: &ExpandedName,
    definitions: &Definitions,
    out: &mut Vec<Pattern>,
    depth: u64,
)
    ensures
        patterns_of(final(out)@) == patterns_of(old(out)@) + contents_in_order(
            patterns_of(values@),
            name@,
            definitions@,
            depth as nat,
            values@.len(),
        ),
    decreases depth, values,
{
    let ghost before = patterns_of(out@);
    let ghost models = patterns_of(values@);
    let mut reachable: bool = true;
    let mut i: usize = 0;
    assert(before + Seq::<PatternModel>::empty() =~= before);
    while i < values.len()
        invariant
            i <= values.len(),
            models == patterns_of(values@),
            reachable == prefix_empty(models, i as int, definitions@, depth as nat),
            patterns_of(out@) == before + contents_in_order(
                models,
                name@,
                definitions@,
                depth as nat,
                i as nat,
            ),
        decreases values.len() - i,
    {
        if reachable {
            collect_element_contents(&values[i], name, definitions, out, depth);
        }
        let passed = reachable && structurally_nullable(&values[i], definitions, depth);
        proof {
            if passed {
                assert(structurally_empty(models[i as int], definitions@, depth as nat));
                assert(prefix_empty(models, i + 1, definitions@, depth as nat));
            }
            if prefix_empty(models, i + 1, definitions@, depth as nat) {
                assert(structurally_empty(models[i as int], definitions@, depth as nat));
                assert(prefix_empty(models, i as int, definitions@, depth as nat));
            }
        }
        reachable = passed;
        i += 1;
        assert(patterns_of(out@) =~= before + contents_in_order(
            models,
            name@,
            definitions@,
            depth as nat,
            i as nat,
        ));
    }
}

/// What the content of a child element of the given name must be, where one can be next:
/// the choice of the contents of every element pattern that it fits.
pub fn find_element_contents_within(
    pattern: &Pattern,
    name: &ExpandedName,
    definitions: &Definitions,
    depth: u64,
) -> (r: Option<Pattern>)
    ensures
        match r {
            Some(content) => child_content(pattern@, name@, definitions@, depth as nat) == Some(
                content@,
            ),
            None => child_content(pattern@, name@, definitions@, depth as nat) is None,
        },
{
    let mut found: Vec<Pattern> = Vec::new();
    assert(patterns_of(found@) =~= Seq::<PatternModel>::empty());
    collect_element_contents(pattern, name, definitions, &mut found, depth);
    assert(patterns_of(found@) =~= element_contents(
        pattern@,
        name@,
        definitions@,
        depth as nat,
    ));
    if found.len() == 0 {
        None
    } else {
        Some(choice(found))
    }
}

} // verus!
