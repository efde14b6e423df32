//! What content models hold, and that their derivatives hold nothing else.
use vstd::prelude::*;

use crate::algebra::{
    choice_of, group_of, interleave_of, lemma_without_members, without, without_identity,
};
use crate::compose::operands;
use crate::datatypes::registry::{Bindings, RegistryModel};
use crate::derivative::{
    alternatives, attribute_derivative, attribute_derivatives, branch_at, child_derivative,
    child_derivatives, closed_position, closed_positions, contained, repetition_derivative, Child,
    Container, Defs,
};
use crate::grammar::PatternModel;
use crate::string_map::{has_key, lookup};
use crate::text::Text;
use crate::validator::NameView;

verus! {

/// What a content model may hold besides attributes.
pub struct Shape {
    pub elements: bool,
    pub text: bool,
    pub data: bool,
}

/// Whether a pattern holds no attribute, as far as references are followed to the given
/// depth.
pub open spec fn attribute_free(p: PatternModel, defs: Defs, depth: nat) -> bool
    decreases depth, p,
{
    match p {
        PatternModel::Attribute { name, body, context } => false,
        PatternModel::Group(values) => all_attribute_free(values, defs, depth),
        PatternModel::Interleave(values) => all_attribute_free(values, defs, depth),
        PatternModel::Choice(values) => all_attribute_free(values, defs, depth),
        PatternModel::OneOrMore(values) => all_attribute_free(values, defs, depth),
        PatternModel::Ref(name) => depth > 0 ==> match lookup(defs, name) {
            Some(target) => attribute_free(target, defs, (depth - 1) as nat),
            None => true,
        },
        _ => true,
    }
}

/// Whether patterns hold no attribute.
pub open spec fn all_attribute_free(s: Seq<PatternModel>, defs: Defs, depth: nat) -> bool
    decreases depth, s,
{
    forall|i: int| 0 <= i < s.len() ==> attribute_free(#[trigger] s[i], defs, depth)
}

/// Whether the attributes of a pattern stand in no group and no interleave, as far as
/// references are followed to the given depth.
pub open spec fn attributes_apart(p: PatternModel, defs: Defs, depth: nat) -> bool
    decreases depth, p,
{
    match p {
        PatternModel::Group(values) => all_attribute_free(values, defs, depth),
        PatternModel::Interleave(values) => all_attribute_free(values, defs, depth),
        PatternModel::Choice(values) => all_attributes_apart(values, defs, depth),
        PatternModel::OneOrMore(values) => all_attributes_apart(values, defs, depth),
        PatternModel::Ref(name) => depth > 0 ==> match lookup(defs, name) {
            Some(target) => attributes_apart(target, defs, (depth - 1) as nat),
            None => true,
        },
        _ => true,
    }
}

/// Whether the attributes of patterns stand in no group and no interleave.
pub open spec fn all_attributes_apart(s: Seq<PatternModel>, defs: Defs, depth: nat) -> bool
    decreases depth, s,
{
    forall|i: int| 0 <= i < s.len() ==> attributes_apart(#[trigger] s[i], defs, depth)
}

/// Whether a content model holds nothing but what a shape allows, and no repeated group or
/// interleave of it holds an attribute, as far as references are followed to the given
/// depth.
pub open spec fn shaped_within(p: PatternModel, shape: Shape, defs: Defs, depth: nat) -> bool
    decreases depth, p,
{
    match p {
        PatternModel::Empty => true,
        PatternModel::NotAllowed => true,
        PatternModel::Attribute { name, body, context } => true,
        PatternModel::Element { name, body, context } => shape.elements,
        PatternModel::Text => shape.text,
        PatternModel::Data { datatype, datatype_library, params, except, context } => shape.data,
        PatternModel::Value { value, datatype, datatype_library, namespace, context } => shape.data,
        PatternModel::List(values) => shape.data,
        PatternModel::Group(values) => all_shaped_within(values, shape, defs, depth),
        PatternModel::Interleave(values) => all_shaped_within(values, shape, defs, depth),
        PatternModel::Choice(values) => all_shaped_within(values, shape, defs, depth),
        PatternModel::OneOrMore(values) => all_shaped_within(values, shape, defs, depth)
            && all_attributes_apart(values, defs, depth),
        PatternModel::Ref(name) => depth > 0 ==> match lookup(defs, name) {
            Some(target) => shaped_within(target, shape, defs, (depth - 1) as nat),
            None => true,
        },
        _ => false,
    }
}

/// Whether content models are of a shape.
pub open spec fn all_shaped_within(
    s: Seq<PatternModel>,
    shape: Shape,
    defs: Defs,
    depth: nat,
) -> bool
    decreases depth, s,
{
    forall|i: int| 0 <= i < s.len() ==> shaped_within(#[trigger] s[i], shape, defs, depth)
}

/// Whether a content model is of a shape, however far references are followed.
pub open spec fn shaped(p: PatternModel, shape: Shape, defs: Defs) -> bool {
    forall|depth: nat| #[trigger] shaped_within(p, shape, defs, depth)
}

/// Nothing but attributes.
pub open spec fn childless() -> Shape {
    Shape { elements: false, text: false, data: false }
}

/// What holds no attribute within a depth holds none within a smaller one.
proof fn lemma_free_shallower(p: PatternModel, defs: Defs, depth: nat, more: nat)
    requires
        attribute_free(p, defs, more),
        depth <= more,
    ensures
        attribute_free(p, defs, depth),
    decreases more, p,
{
    match p {
        PatternModel::Group(values) => {
            lemma_all_free_shallower(values, defs, depth, more);
        },
        PatternModel::Interleave(values) => {
            lemma_all_free_shallower(values, defs, depth, more);
        },
        PatternModel::Choice(values) => {
            lemma_all_free_shallower(values, defs, depth, more);
        },
        PatternModel::OneOrMore(values) => {
            lemma_all_free_shallower(values, defs, depth, more);
        },
        PatternModel::Ref(name) => {
            if depth > 0 && lookup(defs, name) is Some {
                lemma_free_shallower(
                    lookup(defs, name)->0,
                    defs,
                    (depth - 1) as nat,
                    (more - 1) as nat,
                );
            }
        },
        _ => {},
    }
}

/// What holds no attribute within a depth, each of patterns, holds none within a smaller one.
proof fn lemma_all_free_shallower(s: Seq<PatternModel>, defs: Defs, depth: nat, more: nat)
    requires
        all_attribute_free(s, defs, more),
        depth <= more,
    ensures
        all_attribute_free(s, defs, depth),
    decreases more, s,
{
    assert forall|i: int| 0 <= i < s.len() implies attribute_free(#[trigger] s[i], defs, depth) by {
        assert(attribute_free(s[i], defs, more));
        lemma_free_shallower(s[i], defs, depth, more);
    }
}

/// Attributes that stand in no group within a depth stand in none within a smaller one.
proof fn lemma_apart_shallower(p: PatternModel, defs: Defs, depth: nat, more: nat)
    requires
        attributes_apart(p, defs, more),
        depth <= more,
    ensures
        attributes_apart(p, defs, depth),
    decreases more, p,
{
    match p {
        PatternModel::Group(values) => {
            lemma_all_free_shallower(values, defs, depth, more);
        },
        PatternModel::Interleave(values) => {
            lemma_all_free_shallower(values, defs, depth, more);
        },
        PatternModel::Choice(values) => {
            lemma_all_apart_shallower(values, defs, depth, more);
        },
        PatternModel::OneOrMore(values) => {
            lemma_all_apart_shallower(values, defs, depth, more);
        },
        PatternModel::Ref(name) => {
            if depth > 0 && lookup(defs, name) is Some {
                lemma_apart_shallower(
                    lookup(defs, name)->0,
                    defs,
                    (depth - 1) as nat,
                    (more - 1) as nat,
                );
            }
        },
        _ => {},
    }
}

/// Attributes of patterns that stand in no group within a depth stand in none within a
/// smaller one.
proof fn lemma_all_apart_shallower(s: Seq<PatternModel>, defs: Defs, depth: nat, more: nat)
    requires
        all_attributes_apart(s, defs, more),
        depth <= more,
    ensures
        all_attributes_apart(s, defs, depth),
    decreases more, s,
{
    assert forall|i: int| 0 <= i < s.len() implies attributes_apart(
        #[trigger] s[i],
        defs,
        depth,
    ) by {
        assert(attributes_apart(s[i], defs, more));
        lemma_apart_shallower(s[i], defs, depth, more);
    }
}

/// What is of a shape within a depth is so within a smaller one.
pub proof fn lemma_shallower(p: PatternModel, shape: Shape, defs: Defs, depth: nat, more: nat)
    requires
        shaped_within(p, shape, defs, more),
        depth <= more,
    ensures
        shaped_within(p, shape, defs, depth),
    decreases more, p,
{
    match p {
        PatternModel::Group(values) => {
            lemma_all_shallower(values, shape, defs, depth, more);
        },
        PatternModel::Interleave(values) => {
            lemma_all_shallower(values, shape, defs, depth, more);
        },
        PatternModel::Choice(values) => {
            lemma_all_shallower(values, shape, defs, depth, more);
        },
        PatternModel::OneOrMore(values) => {
            lemma_all_shallower(values, shape, defs, depth, more);
            lemma_all_apart_shallower(values, defs, depth, more);
        },
        PatternModel::Ref(name) => {
            if depth > 0 && lookup(defs, name) is Some {
                lemma_shallower(
                    lookup(defs, name)->0,
                    shape,
                    defs,
                    (depth - 1) as nat,
                    (more - 1) as nat,
                );
            }
        },
        _ => {},
    }
}

/// What is of a shape within a depth, each of patterns, is so within a smaller one.
proof fn lemma_all_shallower(
    s: Seq<PatternModel>,
    shape: Shape,
    defs: Defs,
    depth: nat,
    more: nat,
)
    requires
        all_shaped_within(s, shape, defs, more),
        depth <= more,
    ensures
        all_shaped_within(s, shape, defs, depth),
    decreases more, s,
{
    assert forall|i: int| 0 <= i < s.len() implies shaped_within(
        #[trigger] s[i],
        shape,
        defs,
        depth,
    ) by {
        assert(shaped_within(s[i], shape, defs, more));
        lemma_shallower(s[i], shape, defs, depth, more);
    }
}

/// Whether content models are of a shape, however far references are followed.
pub open spec fn all_shaped(s: Seq<PatternModel>, shape: Shape, defs: Defs) -> bool {
    forall|i: int| 0 <= i < s.len() ==> shaped(#[trigger] s[i], shape, defs)
}

/// Whether a pattern is a group, an interleave or a choice.
spec fn compound(p: PatternModel) -> bool {
    p is Group || p is Interleave || p is Choice
}

/// The operands of a pattern of a shape are of it.
pub proof fn lemma_operands(p: PatternModel, shape: Shape, defs: Defs)
    requires
        shaped(p, shape, defs),
        p is Group || p is Interleave || p is Choice || p is OneOrMore,
    ensures
        all_shaped(operands(p)->0, shape, defs),
{
    let s = operands(p)->0;
    assert forall|i: int| 0 <= i < s.len() implies shaped(#[trigger] s[i], shape, defs) by {
        assert forall|depth: nat| #[trigger] shaped_within(s[i], shape, defs, depth) by {
            assert(shaped_within(p, shape, defs, depth));
            assert(all_shaped_within(s, shape, defs, depth));
        }
    }
}

/// A group, an interleave or a choice is of a shape where its operands are.
proof fn lemma_compound(p: PatternModel, shape: Shape, defs: Defs)
    requires
        compound(p),
        all_shaped(operands(p)->0, shape, defs),
    ensures
        shaped(p, shape, defs),
{
    let s = operands(p)->0;
    assert forall|depth: nat| #[trigger] shaped_within(p, shape, defs, depth) by {
        assert forall|i: int| 0 <= i < s.len() implies shaped_within(
            #[trigger] s[i],
            shape,
            defs,
            depth,
        ) by {
            assert(shaped(s[i], shape, defs));
        }
        assert(all_shaped_within(s, shape, defs, depth));
    }
}

/// What a reference of a shape refers to is of it.
pub proof fn lemma_target(name: Text, shape: Shape, defs: Defs)
    requires
        shaped(PatternModel::Ref(name), shape, defs),
        has_key(defs, name),
    ensures
        shaped(lookup(defs, name)->0, shape, defs),
{
    assert forall|depth: nat| #[trigger] shaped_within(
        lookup(defs, name)->0,
        shape,
        defs,
        depth,
    ) by {
        assert(shaped_within(PatternModel::Ref(name), shape, defs, depth + 1));
    }
}

/// Groups, interleaves and choices of a shape amount to what is of it.
proof fn lemma_algebra_shaped(s: Seq<PatternModel>, shape: Shape, defs: Defs)
    requires
        all_shaped(s, shape, defs),
    ensures
        shaped(group_of(s), shape, defs),
        shaped(interleave_of(s), shape, defs),
        shaped(choice_of(s), shape, defs),
{
    let rest = without_identity(s);
    let chosen = without(s, PatternModel::NotAllowed);
    lemma_without_members(s, PatternModel::Empty);
    lemma_without_members(s, PatternModel::NotAllowed);
    assert forall|i: int| 0 <= i < rest.len() implies shaped(#[trigger] rest[i], shape, defs) by {
        assert(rest.contains(rest[i]));
        if s.len() > 1 {
            assert(rest[i] != PatternModel::Empty);
        }
        assert(s.contains(rest[i]));
        let j = choose|j: int| 0 <= j < s.len() && s[j] == rest[i];
        assert(shaped(s[j], shape, defs));
    }
    assert forall|i: int| 0 <= i < chosen.len() implies shaped(
        #[trigger] chosen[i],
        shape,
        defs,
    ) by {
        assert(chosen.contains(chosen[i]));
        assert(chosen[i] != PatternModel::NotAllowed);
        assert(s.contains(chosen[i]));
        let j = choose|j: int| 0 <= j < s.len() && s[j] == chosen[i];
        assert(shaped(s[j], shape, defs));
    }
    lemma_compound(PatternModel::Group(rest), shape, defs);
    lemma_compound(PatternModel::Interleave(rest), shape, defs);
    lemma_compound(PatternModel::Choice(chosen), shape, defs);
    assert(shaped(PatternModel::Empty, shape, defs));
    assert(shaped(PatternModel::NotAllowed, shape, defs));
}

/// What is left of a position that was passed over is of the same shape.
proof fn lemma_closed_shaped(p: PatternModel, shape: Shape, defs: Defs, depth: nat)
    requires
        shaped(p, shape, defs),
    ensures
        shaped(closed_position(p, defs, depth), shape, defs),
    decreases depth, p,
{
    assert(shaped_within(p, shape, defs, depth));
    assert(shaped(PatternModel::Empty, shape, defs));
    assert(shaped(PatternModel::NotAllowed, shape, defs));
    match p {
        PatternModel::Group(values) => {
            lemma_operands(p, shape, defs);
            lemma_closed_all_shaped(values, shape, defs, depth);
            lemma_algebra_shaped(closed_positions(values, defs, depth), shape, defs);
        },
        PatternModel::Interleave(values) => {
            lemma_operands(p, shape, defs);
            lemma_closed_all_shaped(values, shape, defs, depth);
            lemma_algebra_shaped(closed_positions(values, defs, depth), shape, defs);
        },
        PatternModel::Choice(values) => {
            lemma_operands(p, shape, defs);
            lemma_closed_all_shaped(values, shape, defs, depth);
            lemma_algebra_shaped(closed_positions(values, defs, depth), shape, defs);
        },
        PatternModel::OneOrMore(values) => {
            if values.len() > 0 {
                lemma_operands(p, shape, defs);
                assert(shaped(values[0], shape, defs));
                lemma_closed_shaped(values[0], shape, defs, depth);
            }
        },
        PatternModel::Ref(name) => {
            if depth > 0 && has_key(defs, name) {
                lemma_target(name, shape, defs);
                lemma_closed_shaped(lookup(defs, name)->0, shape, defs, (depth - 1) as nat);
            }
        },
        _ => {},
    }
}

/// What is left of positions that were passed over is of the same shape.
proof fn lemma_closed_all_shaped(s: Seq<PatternModel>, shape: Shape, defs: Defs, depth: nat)
    requires
        all_shaped(s, shape, defs),
    ensures
        all_shaped(closed_positions(s, defs, depth), shape, defs),
    decreases depth, s,
{
    let out = closed_positions(s, defs, depth);
    assert forall|i: int| 0 <= i < out.len() implies shaped(#[trigger] out[i], shape, defs) by {
        assert(shaped(s[i], shape, defs));
        lemma_closed_shaped(s[i], shape, defs, depth);
    }
}

/// What is left of operands of a shape is of it.
proof fn lemma_positions_shaped(
    values: Seq<PatternModel>,
    derived: Seq<PatternModel>,
    sequential: bool,
    container: Container,
    shape: Shape,
    defs: Defs,
    depth: nat,
    n: nat,
)
    requires
        n <= values.len(),
        values.len() == derived.len(),
        all_shaped(values, shape, defs),
        all_shaped(derived, shape, defs),
    ensures
        all_shaped(
            alternatives(values, derived, sequential, container, defs, depth, n),
            shape,
            defs,
        ),
        shaped(
            choice_of(alternatives(values, derived, sequential, container, defs, depth, n)),
            shape,
            defs,
        ),
    decreases n,
{
    let s = alternatives(values, derived, sequential, container, defs, depth, n);
    if n > 0 {
        let m = (n - 1) as nat;
        lemma_positions_shaped(values, derived, sequential, container, shape, defs, depth, m);
        let before = alternatives(values, derived, sequential, container, defs, depth, m);
        let branch = branch_at(values, derived, sequential, m as int, defs, depth);
        assert forall|j: int| 0 <= j < branch.len() implies shaped(
            #[trigger] branch[j],
            shape,
            defs,
        ) by {
            assert(shaped(values[j], shape, defs));
            assert(shaped(derived[j], shape, defs));
            lemma_closed_shaped(values[j], shape, defs, depth);
        }
        lemma_algebra_shaped(branch, shape, defs);
        assert forall|j: int| 0 <= j < s.len() implies shaped(#[trigger] s[j], shape, defs) by {
            if j < before.len() {
                assert(shaped(before[j], shape, defs));
            } else {
                assert(s[j] == contained(container, branch));
            }
        }
    }
    lemma_algebra_shaped(s, shape, defs);
}

/// What is left of a repetition of a shape is of it.
proof fn lemma_repetition_shaped(
    derived: PatternModel,
    whole: PatternModel,
    shape: Shape,
    defs: Defs,
)
    requires
        shaped(derived, shape, defs),
        shaped(whole, shape, defs),
    ensures
        shaped(repetition_derivative(derived, whole), shape, defs),
{
    assert(shaped(PatternModel::Empty, shape, defs));
    let again = seq![whole, PatternModel::Empty];
    assert(all_shaped(again, shape, defs));
    lemma_algebra_shaped(again, shape, defs);
    let both = seq![derived, choice_of(again)];
    assert(all_shaped(both, shape, defs));
    lemma_algebra_shaped(both, shape, defs);
}

/// What is left of a content model after a child is of the same shape.
pub proof fn lemma_child_shaped(
    p: PatternModel,
    child: Child,
    shape: Shape,
    defs: Defs,
    depth: nat,
)
    requires
        shaped(p, shape, defs),
    ensures
        shaped(child_derivative(p, child, defs, depth), shape, defs),
    decreases depth, p,
{
    assert(shaped_within(p, shape, defs, depth));
    assert(shaped(PatternModel::Empty, shape, defs));
    assert(shaped(PatternModel::NotAllowed, shape, defs));
    match p {
        PatternModel::Group(values) => {
            let derived = child_derivatives(values, child, defs, depth);
            lemma_operands(p, shape, defs);
            lemma_children_shaped(values, child, shape, defs, depth);
            let n = values.len();
            let c = Container::Group;
            lemma_positions_shaped(values, derived, true, c, shape, defs, depth, n);
        },
        PatternModel::Interleave(values) => {
            let derived = child_derivatives(values, child, defs, depth);
            lemma_operands(p, shape, defs);
            lemma_children_shaped(values, child, shape, defs, depth);
            let n = values.len();
            let c = Container::Interleave;
            lemma_positions_shaped(values, derived, false, c, shape, defs, depth, n);
        },
        PatternModel::Choice(values) => {
            lemma_operands(p, shape, defs);
            lemma_children_shaped(values, child, shape, defs, depth);
            lemma_algebra_shaped(child_derivatives(values, child, defs, depth), shape, defs);
        },
        PatternModel::OneOrMore(values) => {
            if values.len() > 0 {
                lemma_operands(p, shape, defs);
                assert(shaped(values[0], shape, defs));
                lemma_child_shaped(values[0], child, shape, defs, depth);
                lemma_repetition_shaped(
                    child_derivative(values[0], child, defs, depth),
                    p,
                    shape,
                    defs,
                );
            }
        },
        PatternModel::Ref(target) => {
            if depth > 0 && has_key(defs, target) {
                lemma_target(target, shape, defs);
                lemma_child_shaped(
                    lookup(defs, target)->0,
                    child,
                    shape,
                    defs,
                    (depth - 1) as nat,
                );
            }
        },
        _ => {},
    }
}

/// What is left of each content model after a child is of the same shape.
proof fn lemma_children_shaped(
    s: Seq<PatternModel>,
    child: Child,
    shape: Shape,
    defs: Defs,
    depth: nat,
)
    requires
        all_shaped(s, shape, defs),
    ensures
        all_shaped(child_derivatives(s, child, defs, depth), shape, defs),
    decreases depth, s,
{
    let out = child_derivatives(s, child, defs, depth);
    assert forall|i: int| 0 <= i < out.len() implies shaped(#[trigger] out[i], shape, defs) by {
        assert(shaped(s[i], shape, defs));
        lemma_child_shaped(s[i], child, shape, defs, depth);
    }
}

/// What is left of a content model after an attribute is of the same shape.
pub proof fn lemma_attribute_shaped(
    p: PatternModel,
    name: NameView,
    value: Text,
    shape: Shape,
    defs: Defs,
    registry: RegistryModel,
    context: Bindings,
    depth: nat,
)
    requires
        shaped(p, shape, defs),
    ensures
        shaped(
            attribute_derivative(p, name, value, defs, registry, context, depth),
            shape,
            defs,
        ),
    decreases depth, p,
{
    assert(shaped(PatternModel::Empty, shape, defs));
    assert(shaped(PatternModel::NotAllowed, shape, defs));
    match p {
        PatternModel::Group(values) => {
            let derived = attribute_derivatives(
                values,
                name,
                value,
                defs,
                registry,
                context,
                depth,
            );
            lemma_operands(p, shape, defs);
            lemma_attributes_shaped(values, name, value, shape, defs, registry, context, depth);
            let n = values.len();
            let c = Container::Group;
            lemma_positions_shaped(values, derived, false, c, shape, defs, depth, n);
        },
        PatternModel::Interleave(values) => {
            let derived = attribute_derivatives(
                values,
                name,
                value,
                defs,
                registry,
                context,
                depth,
            );
            lemma_operands(p, shape, defs);
            lemma_attributes_shaped(values, name, value, shape, defs, registry, context, depth);
            let n = values.len();
            let c = Container::Interleave;
            lemma_positions_shaped(values, derived, false, c, shape, defs, depth, n);
        },
        PatternModel::Choice(values) => {
            lemma_operands(p, shape, defs);
            lemma_attributes_shaped(values, name, value, shape, defs, registry, context, depth);
            lemma_algebra_shaped(
                attribute_derivatives(values, name, value, defs, registry, context, depth),
                shape,
                defs,
            );
        },
        PatternModel::OneOrMore(values) => {
            if values.len() > 0 {
                lemma_operands(p, shape, defs);
                assert(shaped(values[0], shape, defs));
                lemma_attribute_shaped(
                    values[0],
                    name,
                    value,
                    shape,
                    defs,
                    registry,
                    context,
                    depth,
                );
                lemma_repetition_shaped(
                    attribute_derivative(values[0], name, value, defs, registry, context, depth),
                    p,
                    shape,
                    defs,
                );
            }
        },
        PatternModel::Ref(target) => {
            if depth > 0 && has_key(defs, target) {
                lemma_target(target, shape, defs);
                lemma_attribute_shaped(
                    lookup(defs, target)->0,
                    name,
                    value,
                    shape,
                    defs,
                    registry,
                    context,
                    (depth - 1) as nat,
                );
            }
        },
        _ => {},
    }
}

/// What is left of each content model after an attribute is of the same shape.
proof fn lemma_attributes_shaped(
    s: Seq<PatternModel>,
    name: NameView,
    value: Text,
    shape: Shape,
    defs: Defs,
    registry: RegistryModel,
    context: Bindings,
    depth: nat,
)
    requires
        all_shaped(s, shape, defs),
    ensures
        all_shaped(
            attribute_derivatives(s, name, value, defs, registry, context, depth),
            shape,
            defs,
        ),
    decreases depth, s,
{
    let out = attribute_derivatives(s, name, value, defs, registry, context, depth);
    assert forall|i: int| 0 <= i < out.len() implies shaped(#[trigger] out[i], shape, defs) by {
        assert(shaped(s[i], shape, defs));
        lemma_attribute_shaped(s[i], name, value, shape, defs, registry, context, depth);
    }
}

} // verus!
