//! A child element that can be next can be taken: what the validator looks up as its
//! content, and what is left of the content model after it, always go together.
use vstd::prelude::*;

use crate::algebra::{
    choice_of, group_of, interleave_of, lemma_without_members, without, without_identity,
};
use crate::compose::{lemma_operands, operands};
use crate::datatypes::registry::{Bindings, RegistryModel};
use crate::derivative::{
    all_structurally_empty, alternatives, attribute_derivative, attribute_derivatives, branch_at,
    child_content, child_derivative, child_derivatives, closed_position, closed_positions,
    contained, contents_in_order, contents_of_all, element_contents, knows_attribute, named,
    positions_derivative, prefix_empty, repetition_derivative, some_know_attribute,
    some_structurally_empty, structurally_empty, value_fits, Child, Container, Defs,
};
use crate::forms::{all_in_form, defs_in_form, in_form, lean, lemma_algebra};
use crate::grammar::PatternModel;
use crate::name_class::holds_name;
use crate::string_map::{has_key, lemma_lookup_index, lookup};
use crate::text::Text;
use crate::validator::NameView;

verus! {

/// A group or an interleave allows something, so to speak, where each of its patterns does,
/// and a choice where one of its alternatives does.
pub proof fn lemma_allowed(s: Seq<PatternModel>)
    ensures
        !s.contains(PatternModel::NotAllowed) ==> !(group_of(s) is NotAllowed),
        !s.contains(PatternModel::NotAllowed) ==> !(interleave_of(s) is NotAllowed),
        choice_of(s) is NotAllowed <==> forall|i: int|
            0 <= i < s.len() ==> (#[trigger] s[i]) is NotAllowed,
{
    let no = PatternModel::NotAllowed;
    let rest = without_identity(s);
    lemma_without_members(s, PatternModel::Empty);
    if !s.contains(no) && rest.len() == 1 {
        assert(rest.contains(rest[0]));
        assert(s.contains(rest[0]) || rest[0] is Empty);
    }
    lemma_without_members(s, no);
    let chosen = without(s, no);
    if chosen.len() == 0 {
        assert forall|i: int| 0 <= i < s.len() implies (#[trigger] s[i]) is NotAllowed by {
            assert(s.contains(s[i]));
            if !(s[i] is NotAllowed) {
                assert(chosen.contains(s[i]));
            }
        }
    } else {
        assert(chosen.contains(chosen[0]));
        assert(chosen[0] != no);
        assert(s.contains(chosen[0]));
        let i = choose|i: int| 0 <= i < s.len() && s[i] == chosen[0];
        assert(!(s[i] is NotAllowed));
    }
}

/// What is left of a position is in form, and allows something where it can be passed over.
proof fn lemma_closed_position(p: PatternModel, defs: Defs, depth: nat)
    requires
        in_form(p, false),
        defs_in_form(defs),
    ensures
        in_form(closed_position(p, defs, depth), false),
        structurally_empty(p, defs, depth) ==> !(closed_position(p, defs, depth) is NotAllowed),
    decreases depth, p,
{
    match p {
        PatternModel::Group(values) => {
            lemma_closed_positions(values, defs, depth);
            lemma_algebra(closed_positions(values, defs, depth), false);
            lemma_allowed(closed_positions(values, defs, depth));
            if structurally_empty(p, defs, depth) {
                lemma_none_closed(values, defs, depth);
            }
        },
        PatternModel::Interleave(values) => {
            lemma_closed_positions(values, defs, depth);
            lemma_algebra(closed_positions(values, defs, depth), false);
            lemma_allowed(closed_positions(values, defs, depth));
            if structurally_empty(p, defs, depth) {
                lemma_none_closed(values, defs, depth);
            }
        },
        PatternModel::Choice(values) => {
            let s = closed_positions(values, defs, depth);
            lemma_closed_positions(values, defs, depth);
            lemma_algebra(s, false);
            lemma_allowed(s);
            if structurally_empty(p, defs, depth) {
                assert(some_structurally_empty(values, defs, depth));
                let i = choose|i: int|
                    0 <= i < values.len() && structurally_empty(#[trigger] values[i], defs, depth);
                assert(!(s[i] is NotAllowed));
            }
        },
        PatternModel::OneOrMore(values) => {
            assert(in_form(values[0], false));
            lemma_closed_position(values[0], defs, depth);
        },
        PatternModel::Ref(name) => {
            if depth > 0 && has_key(defs, name) {
                let k = lemma_lookup_index(defs, name);
                assert(in_form(defs[k].1, false));
                lemma_closed_position(defs[k].1, defs, (depth - 1) as nat);
            }
        },
        _ => {},
    }
}

/// What is left of positions is in form, and of each allows something where it can be passed
/// over.
proof fn lemma_closed_positions(s: Seq<PatternModel>, defs: Defs, depth: nat)
    requires
        all_in_form(s, false),
        defs_in_form(defs),
    ensures
        all_in_form(closed_positions(s, defs, depth), false),
        closed_positions(s, defs, depth).len() == s.len(),
        forall|i: int|
            0 <= i < s.len() && structurally_empty(#[trigger] s[i], defs, depth) ==> !(
            closed_positions(s, defs, depth)[i] is NotAllowed),
    decreases depth, s,
{
    let out = closed_positions(s, defs, depth);
    assert forall|i: int| 0 <= i < out.len() implies in_form(#[trigger] out[i], false) by {
        assert(in_form(s[i], false));
        lemma_closed_position(s[i], defs, depth);
    }
    assert forall|i: int|
        0 <= i < s.len() && structurally_empty(#[trigger] s[i], defs, depth) implies !(
    out[i] is NotAllowed) by {
        assert(in_form(s[i], false));
        lemma_closed_position(s[i], defs, depth);
    }
}

/// Nothing is left out where every position can be passed over.
proof fn lemma_none_closed(s: Seq<PatternModel>, defs: Defs, depth: nat)
    requires
        all_structurally_empty(s, defs, depth),
        forall|i: int|
            0 <= i < s.len() && structurally_empty(#[trigger] s[i], defs, depth) ==> !(
            closed_positions(s, defs, depth)[i] is NotAllowed),
    ensures
        !closed_positions(s, defs, depth).contains(PatternModel::NotAllowed),
{
    let out = closed_positions(s, defs, depth);
    if out.contains(PatternModel::NotAllowed) {
        let i = choose|i: int| 0 <= i < out.len() && out[i] == PatternModel::NotAllowed;
        assert(structurally_empty(s[i], defs, depth));
    }
}

/// The alternatives of matching at one of the first `n` operands are in form and allow
/// something, and there are some just where some operand can match.
proof fn lemma_alternatives(
    values: Seq<PatternModel>,
    derived: Seq<PatternModel>,
    sequential: bool,
    container: Container,
    defs: Defs,
    depth: nat,
    n: nat,
)
    requires
        n <= values.len(),
        values.len() == derived.len(),
        lean(values),
        all_in_form(values, false),
        all_in_form(derived, false),
        defs_in_form(defs),
    ensures
        ({
            let s = alternatives(values, derived, sequential, container, defs, depth, n);
            &&& all_in_form(s, false)
            &&& !s.contains(PatternModel::NotAllowed)
            &&& s.len() > 0 <==> exists|i: int|
                0 <= i < n && !((#[trigger] derived[i]) is NotAllowed) && (sequential
                    ==> prefix_empty(values, i, defs, depth))
        }),
    decreases n,
{
    let s = alternatives(values, derived, sequential, container, defs, depth, n);
    if n > 0 {
        let m = (n - 1) as nat;
        lemma_alternatives(values, derived, sequential, container, defs, depth, m);
        let before = alternatives(values, derived, sequential, container, defs, depth, m);
        if !(derived[m as int] is NotAllowed) && (sequential ==> prefix_empty(
            values,
            m as int,
            defs,
            depth,
        )) {
            let branch = branch_at(values, derived, sequential, m as int, defs, depth);
            assert forall|j: int| 0 <= j < branch.len() implies in_form(#[trigger] branch[j], false)
                && !(branch[j] is NotAllowed) by {
                assert(in_form(values[j], false));
                assert(in_form(derived[j], false));
                assert(values.contains(values[j]));
                lemma_closed_position(values[j], defs, depth);
                if sequential && j < m {
                    assert(structurally_empty(values[j], defs, depth));
                }
            }
            lemma_algebra(branch, false);
            lemma_allowed(branch);
            let last = contained(container, branch);
            assert(s == before.push(last));
            assert forall|j: int| 0 <= j < s.len() implies in_form(#[trigger] s[j], false) && !(
            s[j] is NotAllowed) by {
                if j < before.len() {
                    assert(before.contains(before[j]));
                    assert(in_form(before[j], false));
                }
            }
        }
    }
}

/// What is left of a group or an interleave is in form, and allows something just where
/// some operand can match.
pub proof fn lemma_positions(
    values: Seq<PatternModel>,
    derived: Seq<PatternModel>,
    sequential: bool,
    container: Container,
    defs: Defs,
    depth: nat,
)
    requires
        values.len() == derived.len(),
        lean(values),
        all_in_form(values, false),
        all_in_form(derived, false),
        defs_in_form(defs),
    ensures
        ({
            let r = positions_derivative(values, derived, sequential, container, defs, depth);
            &&& in_form(r, false)
            &&& !(r is NotAllowed) <==> exists|i: int|
                0 <= i < values.len() && !((#[trigger] derived[i]) is NotAllowed) && (sequential
                    ==> prefix_empty(values, i, defs, depth))
        }),
{
    let n = values.len();
    let s = alternatives(values, derived, sequential, container, defs, depth, n);
    lemma_alternatives(values, derived, sequential, container, defs, depth, n);
    lemma_algebra(s, false);
    lemma_allowed(s);
    if s.len() > 0 {
        assert(s.contains(s[0]));
    }
}

/// What is left of a repetition is in form, and allows something just where what is left of
/// the first time does.
proof fn lemma_repetition(derived: PatternModel, whole: PatternModel)
    requires
        in_form(derived, false),
        in_form(whole, false),
        whole is OneOrMore,
    ensures
        in_form(repetition_derivative(derived, whole), false),
        repetition_derivative(derived, whole) is NotAllowed <==> derived is NotAllowed,
{
    let again = seq![whole, PatternModel::Empty];
    assert(all_in_form(again, false));
    lemma_algebra(again, false);
    lemma_allowed(again);
    assert(!(again[0] is NotAllowed));
    let both = seq![derived, choice_of(again)];
    assert(all_in_form(both, false));
    lemma_algebra(both, false);
    lemma_allowed(both);
    assert(both[0] == derived);
}

/// There is some content in some pattern just where there is some in one of them.
proof fn lemma_contents_of_all(
    s: Seq<PatternModel>,
    name: NameView,
    defs: Defs,
    depth: nat,
    n: nat,
)
    requires
        n <= s.len(),
    ensures
        contents_of_all(s, name, defs, depth, n).len() > 0 <==> exists|i: int|
            0 <= i < n && element_contents(#[trigger] s[i], name, defs, depth).len() > 0,
    decreases n,
{
    if n > 0 {
        lemma_contents_of_all(s, name, defs, depth, (n - 1) as nat);
    }
}

/// There is some content in a group just where there is some in one of its patterns, with
/// all before it passed over.
proof fn lemma_contents_in_order(
    s: Seq<PatternModel>,
    name: NameView,
    defs: Defs,
    depth: nat,
    n: nat,
)
    requires
        n <= s.len(),
    ensures
        contents_in_order(s, name, defs, depth, n).len() > 0 <==> exists|i: int|
            0 <= i < n && element_contents(#[trigger] s[i], name, defs, depth).len() > 0
                && prefix_empty(s, i, defs, depth),
    decreases n,
{
    if n > 0 {
        lemma_contents_in_order(s, name, defs, depth, (n - 1) as nat);
    }
}

/// Each of patterns has some content for a child just where something is left after it.
proof fn lemma_each_expected(s: Seq<PatternModel>, name: NameView, defs: Defs, depth: nat)
    requires
        all_in_form(s, false),
        defs_in_form(defs),
    ensures
        all_in_form(child_derivatives(s, named(name), defs, depth), false),
        forall|i: int|
            0 <= i < s.len() ==> (element_contents(#[trigger] s[i], name, defs, depth).len() > 0
                <==> !(child_derivatives(s, named(name), defs, depth)[i] is NotAllowed)),
    decreases depth, s, 0nat,
{
    let out = child_derivatives(s, named(name), defs, depth);
    assert forall|i: int| 0 <= i < s.len() implies (element_contents(
        #[trigger] s[i],
        name,
        defs,
        depth,
    ).len() > 0 <==> !(out[i] is NotAllowed)) && in_form(out[i], false) by {
        assert(in_form(s[i], false));
        lemma_expected(s[i], name, defs, depth);
    }
}

/// A pattern has some content for a child just where something is left after it.
proof fn lemma_expected(p: PatternModel, name: NameView, defs: Defs, depth: nat)
    requires
        in_form(p, false),
        defs_in_form(defs),
    ensures
        in_form(child_derivative(p, named(name), defs, depth), false),
        element_contents(p, name, defs, depth).len() > 0 <==> !(child_derivative(
            p,
            named(name),
            defs,
            depth,
        ) is NotAllowed),
    decreases depth, p, 0nat,
{
    match p {
        PatternModel::Choice(values) => {
            let derived = child_derivatives(values, named(name), defs, depth);
            lemma_each_expected(values, name, defs, depth);
            lemma_contents_of_all(values, name, defs, depth, values.len());
            lemma_algebra(derived, false);
            lemma_allowed(derived);
            if element_contents(p, name, defs, depth).len() > 0 {
                let i = choose|i: int|
                    0 <= i < values.len() && element_contents(
                        #[trigger] values[i],
                        name,
                        defs,
                        depth,
                    ).len() > 0;
                assert(!(derived[i] is NotAllowed));
            }
            if !(choice_of(derived) is NotAllowed) {
                let i = choose|i: int|
                    0 <= i < derived.len() && !((#[trigger] derived[i]) is NotAllowed);
                assert(element_contents(values[i], name, defs, depth).len() > 0);
            }
        },
        PatternModel::Interleave(values) => {
            let derived = child_derivatives(values, named(name), defs, depth);
            lemma_each_expected(values, name, defs, depth);
            lemma_contents_of_all(values, name, defs, depth, values.len());
            lemma_positions(values, derived, false, Container::Interleave, defs, depth);
            if element_contents(p, name, defs, depth).len() > 0 {
                let i = choose|i: int|
                    0 <= i < values.len() && element_contents(
                        #[trigger] values[i],
                        name,
                        defs,
                        depth,
                    ).len() > 0;
                assert(!(derived[i] is NotAllowed));
            }
            if !(child_derivative(p, named(name), defs, depth) is NotAllowed) {
                let i = choose|i: int|
                    0 <= i < values.len() && !((#[trigger] derived[i]) is NotAllowed);
                assert(element_contents(values[i], name, defs, depth).len() > 0);
            }
        },
        PatternModel::Group(values) => {
            let derived = child_derivatives(values, named(name), defs, depth);
            lemma_each_expected(values, name, defs, depth);
            lemma_contents_in_order(values, name, defs, depth, values.len());
            lemma_positions(values, derived, true, Container::Group, defs, depth);
            if element_contents(p, name, defs, depth).len() > 0 {
                let i = choose|i: int|
                    0 <= i < values.len() && element_contents(
                        #[trigger] values[i],
                        name,
                        defs,
                        depth,
                    ).len() > 0 && prefix_empty(values, i, defs, depth);
                assert(!(derived[i] is NotAllowed));
            }
            if !(child_derivative(p, named(name), defs, depth) is NotAllowed) {
                let i = choose|i: int|
                    0 <= i < values.len() && !((#[trigger] derived[i]) is NotAllowed)
                        && prefix_empty(values, i, defs, depth);
                assert(element_contents(values[i], name, defs, depth).len() > 0);
            }
        },
        PatternModel::OneOrMore(values) => {
            assert(in_form(values[0], false));
            lemma_expected(values[0], name, defs, depth);
            lemma_repetition(child_derivative(values[0], named(name), defs, depth), p);
        },
        PatternModel::Ref(target) => {
            if depth > 0 && has_key(defs, target) {
                let k = lemma_lookup_index(defs, target);
                assert(in_form(defs[k].1, false));
                lemma_expected(defs[k].1, name, defs, (depth - 1) as nat);
            }
        },
        _ => {},
    }
}

/// What is left of each of patterns after a child is in form.
proof fn lemma_each_left_in_form(s: Seq<PatternModel>, child: Child, defs: Defs, depth: nat)
    requires
        all_in_form(s, false),
        defs_in_form(defs),
    ensures
        all_in_form(child_derivatives(s, child, defs, depth), false),
    decreases depth, s, 0nat,
{
    let out = child_derivatives(s, child, defs, depth);
    assert forall|i: int| 0 <= i < out.len() implies in_form(#[trigger] out[i], false) by {
        assert(in_form(s[i], false));
        lemma_left_in_form(s[i], child, defs, depth);
    }
}

/// What is left of a pattern after a child is in form.
pub proof fn lemma_left_in_form(p: PatternModel, child: Child, defs: Defs, depth: nat)
    requires
        in_form(p, false),
        defs_in_form(defs),
    ensures
        in_form(child_derivative(p, child, defs, depth), false),
    decreases depth, p, 0nat,
{
    match p {
        PatternModel::Choice(values) => {
            lemma_each_left_in_form(values, child, defs, depth);
            lemma_algebra(child_derivatives(values, child, defs, depth), false);
        },
        PatternModel::Interleave(values) => {
            let derived = child_derivatives(values, child, defs, depth);
            lemma_each_left_in_form(values, child, defs, depth);
            lemma_positions(values, derived, false, Container::Interleave, defs, depth);
        },
        PatternModel::Group(values) => {
            let derived = child_derivatives(values, child, defs, depth);
            lemma_each_left_in_form(values, child, defs, depth);
            lemma_positions(values, derived, true, Container::Group, defs, depth);
        },
        PatternModel::OneOrMore(values) => {
            assert(in_form(values[0], false));
            lemma_left_in_form(values[0], child, defs, depth);
            lemma_repetition(child_derivative(values[0], child, defs, depth), p);
        },
        PatternModel::Ref(target) => {
            if depth > 0 && has_key(defs, target) {
                let k = lemma_lookup_index(defs, target);
                assert(in_form(defs[k].1, false));
                lemma_left_in_form(defs[k].1, child, defs, (depth - 1) as nat);
            }
        },
        _ => {},
    }
}

/// A child element has a content where it can be next, and it can be next exactly where the
/// content model allows something after it. What it leaves is of the same forms, so that
/// this holds for each child in turn.
pub proof fn law_expected_child_can_be_taken(
    p: PatternModel,
    name: NameView,
    defs: Defs,
    depth: nat,
)
    requires
        in_form(p, false),
        defs_in_form(defs),
    ensures
        child_content(p, name, defs, depth) is Some <==> !(child_derivative(
            p,
            named(name),
            defs,
            depth,
        ) is NotAllowed),
        in_form(child_derivative(p, named(name), defs, depth), false),
{
    lemma_expected(p, name, defs, depth);
}

// ---------------------------------------------------------------------
// Attributes
// ---------------------------------------------------------------------

/// Whether some attribute pattern, at whatever position, allows an attribute and its value,
/// where references are followed to the given depth.
pub open spec fn offers_attribute(
    p: PatternModel,
    name: NameView,
    value: Text,
    defs: Defs,
    registry: RegistryModel,
    context: Bindings,
    depth: nat,
) -> bool
    decreases depth, p,
{
    match p {
        PatternModel::Attribute { name: class, body, context: c } => holds_name(
            class,
            name.namespace,
            name.local,
        ) && body.len() > 0 && value_fits(body[0], value, defs, registry, context, depth),
        PatternModel::Group(values) => some_offer_attribute(
            values,
            name,
            value,
            defs,
            registry,
            context,
            depth,
        ),
        PatternModel::Interleave(values) => some_offer_attribute(
            values,
            name,
            value,
            defs,
            registry,
            context,
            depth,
        ),
        PatternModel::Choice(values) => some_offer_attribute(
            values,
            name,
            value,
            defs,
            registry,
            context,
            depth,
        ),
        PatternModel::OneOrMore(values) => some_offer_attribute(
            values,
            name,
            value,
            defs,
            registry,
            context,
            depth,
        ),
        PatternModel::Ref(target) => depth > 0 && (match lookup(defs, target) {
            Some(q) => offers_attribute(
                q,
                name,
                value,
                defs,
                registry,
                context,
                (depth - 1) as nat,
            ),
            None => false,
        }),
        _ => false,
    }
}

/// Whether some attribute pattern in some of others allows an attribute and its value.
pub open spec fn some_offer_attribute(
    s: Seq<PatternModel>,
    name: NameView,
    value: Text,
    defs: Defs,
    registry: RegistryModel,
    context: Bindings,
    depth: nat,
) -> bool
    decreases depth, s,
{
    exists|i: int|
        0 <= i < s.len() && offers_attribute(
            #[trigger] s[i],
            name,
            value,
            defs,
            registry,
            context,
            depth,
        )
}

/// Each of patterns offers an attribute just where something is left after it.
proof fn lemma_each_offered(
    s: Seq<PatternModel>,
    name: NameView,
    value: Text,
    defs: Defs,
    registry: RegistryModel,
    context: Bindings,
    depth: nat,
)
    requires
        all_in_form(s, false),
        defs_in_form(defs),
    ensures
        ({
            let derived = attribute_derivatives(s, name, value, defs, registry, context, depth);
            &&& all_in_form(derived, false)
            &&& derived.len() == s.len()
            &&& some_offer_attribute(s, name, value, defs, registry, context, depth)
                <==> exists|i: int|
                0 <= i < derived.len() && !((#[trigger] derived[i]) is NotAllowed)
        }),
    decreases depth, s, 0nat,
{
    let derived = attribute_derivatives(s, name, value, defs, registry, context, depth);
    assert forall|i: int| 0 <= i < s.len() implies (offers_attribute(
        #[trigger] s[i],
        name,
        value,
        defs,
        registry,
        context,
        depth,
    ) <==> !(derived[i] is NotAllowed)) && in_form(derived[i], false) by {
        assert(in_form(s[i], false));
        lemma_offered(s[i], name, value, defs, registry, context, depth);
    }
    if some_offer_attribute(s, name, value, defs, registry, context, depth) {
        let i = choose|i: int|
            0 <= i < s.len() && offers_attribute(
                #[trigger] s[i],
                name,
                value,
                defs,
                registry,
                context,
                depth,
            );
        assert(!(derived[i] is NotAllowed));
    }
    if exists|i: int| 0 <= i < derived.len() && !((#[trigger] derived[i]) is NotAllowed) {
        let i = choose|i: int| 0 <= i < derived.len() && !((#[trigger] derived[i]) is NotAllowed);
        assert(offers_attribute(s[i], name, value, defs, registry, context, depth));
    }
}

/// A pattern offers an attribute just where something is left after it.
proof fn lemma_offered(
    p: PatternModel,
    name: NameView,
    value: Text,
    defs: Defs,
    registry: RegistryModel,
    context: Bindings,
    depth: nat,
)
    requires
        in_form(p, false),
        defs_in_form(defs),
    ensures
        ({
            let derived = attribute_derivative(p, name, value, defs, registry, context, depth);
            &&& in_form(derived, false)
            &&& !(derived is NotAllowed) <==> offers_attribute(
                p,
                name,
                value,
                defs,
                registry,
                context,
                depth,
            )
        }),
    decreases depth, p, 0nat,
{
    match p {
        PatternModel::Choice(values) => {
            lemma_each_offered(values, name, value, defs, registry, context, depth);
            let derived = attribute_derivatives(
                values,
                name,
                value,
                defs,
                registry,
                context,
                depth,
            );
            lemma_algebra(derived, false);
            lemma_allowed(derived);
        },
        PatternModel::Interleave(values) => {
            lemma_each_offered(values, name, value, defs, registry, context, depth);
            let derived = attribute_derivatives(
                values,
                name,
                value,
                defs,
                registry,
                context,
                depth,
            );
            lemma_positions(values, derived, false, Container::Interleave, defs, depth);
        },
        PatternModel::Group(values) => {
            lemma_each_offered(values, name, value, defs, registry, context, depth);
            let derived = attribute_derivatives(
                values,
                name,
                value,
                defs,
                registry,
                context,
                depth,
            );
            lemma_positions(values, derived, false, Container::Group, defs, depth);
        },
        PatternModel::OneOrMore(values) => {
            assert(in_form(values[0], false));
            lemma_offered(values[0], name, value, defs, registry, context, depth);
            let derived = attribute_derivative(
                values[0],
                name,
                value,
                defs,
                registry,
                context,
                depth,
            );
            lemma_repetition(derived, p);
            assert(values.len() == 1);
            assert(some_offer_attribute(values, name, value, defs, registry, context, depth)
                == offers_attribute(values[0], name, value, defs, registry, context, depth));
        },
        PatternModel::Ref(target) => {
            if depth > 0 && has_key(defs, target) {
                let k = lemma_lookup_index(defs, target);
                assert(in_form(defs[k].1, false));
                lemma_offered(
                    defs[k].1,
                    name,
                    value,
                    defs,
                    registry,
                    context,
                    (depth - 1) as nat,
                );
            }
        },
        _ => {},
    }
}

/// An attribute can be taken exactly where some attribute pattern, at whatever position of
/// the content model and behind whatever references, allows its name and its value. What it
/// leaves is of the same forms, so that this holds for each attribute in turn.
pub proof fn law_attributes_are_taken_at_any_position(
    p: PatternModel,
    name: NameView,
    value: Text,
    defs: Defs,
    registry: RegistryModel,
    context: Bindings,
    depth: nat,
)
    requires
        in_form(p, false),
        defs_in_form(defs),
    ensures
        ({
            let derived = attribute_derivative(p, name, value, defs, registry, context, depth);
            &&& in_form(derived, false)
            &&& !(derived is NotAllowed) <==> offers_attribute(
                p,
                name,
                value,
                defs,
                registry,
                context,
                depth,
            )
        }),
{
    lemma_offered(p, name, value, defs, registry, context, depth);
}

/// An attribute that can be taken has a name that is known, so that an unknown name is told
/// from a value that does not fit.
pub proof fn law_offered_attributes_are_known(
    p: PatternModel,
    name: NameView,
    value: Text,
    defs: Defs,
    registry: RegistryModel,
    context: Bindings,
    depth: nat,
)
    requires
        in_form(p, false),
        defs_in_form(defs),
        offers_attribute(p, name, value, defs, registry, context, depth),
    ensures
        knows_attribute(p, name, defs, depth),
    decreases depth, p,
{
    match p {
        PatternModel::Ref(target) => {
            let k = lemma_lookup_index(defs, target);
            assert(in_form(defs[k].1, false));
            law_offered_attributes_are_known(
                lookup(defs, target)->0,
                name,
                value,
                defs,
                registry,
                context,
                (depth - 1) as nat,
            );
        },
        _ => {
            if operands(p) is Some && !(p is Attribute) {
                let values = operands(p)->0;
                lemma_operands(p);
                assert(some_offer_attribute(
                    values,
                    name,
                    value,
                    defs,
                    registry,
                    context,
                    depth,
                ));
                let i = choose|i: int|
                    0 <= i < values.len() && offers_attribute(
                        #[trigger] values[i],
                        name,
                        value,
                        defs,
                        registry,
                        context,
                        depth,
                    );
                law_offered_attributes_are_known(
                    values[i],
                    name,
                    value,
                    defs,
                    registry,
                    context,
                    depth,
                );
                assert(some_know_attribute(values, name, defs, depth));
            }
        },
    }
}

} // verus!
