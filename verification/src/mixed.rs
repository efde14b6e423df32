//! Mixed content: text is taken wherever it stands, so that none is ever left out.
use vstd::prelude::*;

use crate::algebra::{
    choice_of, interleave_of, lemma_without_members, without, without_identity,
};
use crate::attribute_order::{in_order, Attribute};
use crate::conformance::{
    as_taken, having, law_valid_elements_match_their_content, lemma_ordered, lemma_recognized,
    lemma_remaining_push, lemma_taken, only, orderly, sequence, setting, text_child,
};
use crate::datatypes::registry::{Bindings, RegistryModel};
use crate::derivative::{
    alternatives, attribute_derivative, attribute_derivatives, branch_at, child_derivative,
    child_derivatives, is_nullable, Child, Container, Defs, MAX_DEPTH,
};
use crate::expectation::{lemma_allowed, lemma_left_in_form, lemma_positions};
use crate::forms::{all_in_form, defs_in_form, in_form};
use crate::grammar::PatternModel;
use crate::language::{remaining, Word};
use crate::matching::{left_after, meets, Setting};
use crate::shapes::Shape;
use crate::text::Text;
use crate::validator::{
    child_event, is_valid, taken_attributes, ContentModel, ElementModel, NameView,
};

verus! {

/// Whether a content model is interleaved with text.
pub open spec fn mixed(p: PatternModel) -> bool
    decreases p,
{
    match p {
        PatternModel::Text => true,
        PatternModel::Interleave(values) => values.contains(PatternModel::Text),
        PatternModel::Choice(values) => all_mixed(values),
        _ => false,
    }
}

/// Whether content models are interleaved with text.
pub open spec fn all_mixed(s: Seq<PatternModel>) -> bool
    decreases s,
{
    forall|i: int| 0 <= i < s.len() ==> mixed(#[trigger] s[i])
}

/// Whether a content model is interleaved with text, or allows nothing.
spec fn mixed_or_none(p: PatternModel) -> bool {
    p is NotAllowed || mixed(p)
}

/// An interleave with text amounts to mixed content, or to nothing that is allowed.
proof fn lemma_interleave_mixed(s: Seq<PatternModel>)
    requires
        s.contains(PatternModel::Text),
    ensures
        mixed_or_none(interleave_of(s)),
{
    let rest = without_identity(s);
    lemma_without_members(s, PatternModel::Empty);
    assert(rest.contains(PatternModel::Text));
    if rest.len() == 1 {
        assert(rest[0] == PatternModel::Text);
    } else {
        assert(mixed(PatternModel::Interleave(rest)));
    }
}

/// A choice of mixed content amounts to mixed content, or to nothing that is allowed.
proof fn lemma_choice_mixed(s: Seq<PatternModel>)
    requires
        forall|i: int| 0 <= i < s.len() ==> mixed_or_none(#[trigger] s[i]),
    ensures
        mixed_or_none(choice_of(s)),
{
    let chosen = without(s, PatternModel::NotAllowed);
    lemma_without_members(s, PatternModel::NotAllowed);
    assert forall|i: int| 0 <= i < chosen.len() implies mixed(#[trigger] chosen[i]) by {
        assert(chosen.contains(chosen[i]));
        assert(s.contains(chosen[i]));
        let j = choose|j: int| 0 <= j < s.len() && s[j] == chosen[i];
        assert(mixed_or_none(s[j]));
    }
    assert(all_mixed(chosen));
    if chosen.len() > 1 {
        assert(mixed(PatternModel::Choice(chosen)));
    }
}

/// The alternatives at operands of an interleave with text are mixed content, or nothing that
/// is allowed.
proof fn lemma_alternatives_mixed(
    values: Seq<PatternModel>,
    derived: Seq<PatternModel>,
    k: int,
    defs: Defs,
    depth: nat,
    n: nat,
)
    requires
        n <= values.len(),
        values.len() == derived.len(),
        0 <= k < values.len(),
        values[k] == PatternModel::Text,
        derived[k] is NotAllowed || derived[k] == PatternModel::Text,
    ensures
        ({
            let s = alternatives(values, derived, false, Container::Interleave, defs, depth, n);
            forall|i: int| 0 <= i < s.len() ==> mixed_or_none(#[trigger] s[i])
        }),
    decreases n,
{
    if n > 0 {
        let m = (n - 1) as nat;
        let c = Container::Interleave;
        lemma_alternatives_mixed(values, derived, k, defs, depth, m);
        let before = alternatives(values, derived, false, c, defs, depth, m);
        let s = alternatives(values, derived, false, c, defs, depth, n);
        if s.len() > before.len() {
            let branch = branch_at(values, derived, false, m as int, defs, depth);
            assert(branch[k] == PatternModel::Text);
            assert(branch.contains(PatternModel::Text));
            lemma_interleave_mixed(branch);
        }
        assert forall|i: int| 0 <= i < s.len() implies mixed_or_none(#[trigger] s[i]) by {
            if i < before.len() {
                assert(mixed_or_none(before[i]));
            }
        }
    }
}

/// What is left of mixed content after a child is mixed content, or nothing that is allowed.
proof fn lemma_child_mixed(p: PatternModel, child: Child, defs: Defs, depth: nat)
    requires
        mixed(p),
    ensures
        mixed_or_none(child_derivative(p, child, defs, depth)),
    decreases p,
{
    match p {
        PatternModel::Interleave(values) => {
            let derived = child_derivatives(values, child, defs, depth);
            let k = choose|k: int| 0 <= k < values.len() && values[k] == PatternModel::Text;
            assert(derived[k] == child_derivative(values[k], child, defs, depth));
            let n = values.len();
            lemma_alternatives_mixed(values, derived, k, defs, depth, n);
            lemma_choice_mixed(
                alternatives(values, derived, false, Container::Interleave, defs, depth, n),
            );
        },
        PatternModel::Choice(values) => {
            let derived = child_derivatives(values, child, defs, depth);
            assert(all_mixed(values));
            assert forall|i: int| 0 <= i < derived.len() implies mixed_or_none(
                #[trigger] derived[i],
            ) by {
                assert(mixed(values[i]));
                lemma_child_mixed(values[i], child, defs, depth);
            }
            lemma_choice_mixed(derived);
        },
        _ => {},
    }
}

/// What is left of mixed content after an attribute is mixed content, or nothing that is
/// allowed.
proof fn lemma_attribute_mixed(
    p: PatternModel,
    name: NameView,
    value: Text,
    defs: Defs,
    registry: RegistryModel,
    context: Bindings,
    depth: nat,
)
    requires
        mixed(p),
    ensures
        mixed_or_none(attribute_derivative(p, name, value, defs, registry, context, depth)),
    decreases p,
{
    match p {
        PatternModel::Interleave(values) => {
            let derived = attribute_derivatives(
                values,
                name,
                value,
                defs,
                registry,
                context,
                depth,
            );
            let k = choose|k: int| 0 <= k < values.len() && values[k] == PatternModel::Text;
            assert(derived[k] == attribute_derivative(
                values[k],
                name,
                value,
                defs,
                registry,
                context,
                depth,
            ));
            let n = values.len();
            lemma_alternatives_mixed(values, derived, k, defs, depth, n);
            lemma_choice_mixed(
                alternatives(values, derived, false, Container::Interleave, defs, depth, n),
            );
        },
        PatternModel::Choice(values) => {
            let derived = attribute_derivatives(
                values,
                name,
                value,
                defs,
                registry,
                context,
                depth,
            );
            assert(all_mixed(values));
            assert forall|i: int| 0 <= i < derived.len() implies mixed_or_none(
                #[trigger] derived[i],
            ) by {
                assert(mixed(values[i]));
                lemma_attribute_mixed(
                    values[i],
                    name,
                    value,
                    defs,
                    registry,
                    context,
                    depth,
                );
            }
            lemma_choice_mixed(derived);
        },
        _ => {},
    }
}

/// Mixed content takes text.
proof fn lemma_takes_text(p: PatternModel, child: Child, defs: Defs, depth: nat)
    requires
        mixed(p),
        in_form(p, false),
        defs_in_form(defs),
        child is Text,
    ensures
        !(child_derivative(p, child, defs, depth) is NotAllowed),
    decreases p,
{
    match p {
        PatternModel::Interleave(values) => {
            let derived = child_derivatives(values, child, defs, depth);
            let k = choose|k: int| 0 <= k < values.len() && values[k] == PatternModel::Text;
            assert forall|i: int| 0 <= i < derived.len() implies in_form(
                #[trigger] derived[i],
                false,
            ) by {
                assert(in_form(values[i], false));
                lemma_left_in_form(values[i], child, defs, depth);
            }
            assert(all_in_form(derived, false));
            lemma_positions(values, derived, false, Container::Interleave, defs, depth);
            assert(derived[k] == child_derivative(values[k], child, defs, depth));
            assert(!(derived[k] is NotAllowed));
        },
        PatternModel::Choice(values) => {
            let derived = child_derivatives(values, child, defs, depth);
            assert(all_mixed(values));
            assert(mixed(values[0]));
            assert(in_form(values[0], false));
            lemma_takes_text(values[0], child, defs, depth);
            lemma_allowed(derived);
            assert(!(derived[0] is NotAllowed));
        },
        _ => {},
    }
}

/// What is left of mixed content after attributes that fit is mixed content.
proof fn lemma_taken_mixed(
    content: PatternModel,
    all: Seq<Attribute>,
    n: nat,
    e: Setting,
)
    requires
        n <= all.len(),
        mixed(content),
    ensures
        match taken_attributes(content, all, n, e.context, e.defs, e.registry) {
            Some(p) => mixed(p),
            None => true,
        },
    decreases n,
{
    if n > 0 {
        let k = (n - 1) as nat;
        let a = all[n - 1];
        lemma_taken_mixed(content, all, k, e);
        match taken_attributes(content, all, k, e.context, e.defs, e.registry) {
            Some(p) => {
                lemma_attribute_mixed(
                    p,
                    a.0,
                    a.1,
                    e.defs,
                    e.registry,
                    e.context,
                    MAX_DEPTH as nat,
                );
                assert(left_after(p, a, e, MAX_DEPTH as nat) is NotAllowed || mixed(
                    left_after(p, a, e, MAX_DEPTH as nat),
                ));
            },
            None => {},
        }
    }
}

/// What is left of mixed content after children is in form, and is mixed content or nothing
/// that is allowed.
proof fn lemma_remaining_mixed(p: PatternModel, w: Word, defs: Defs, depth: nat)
    requires
        mixed_or_none(p),
        in_form(p, false),
        defs_in_form(defs),
    ensures
        mixed_or_none(remaining(p, w, defs, depth)),
        in_form(remaining(p, w, defs, depth), false),
    decreases w.len(),
{
    if w.len() > 0 {
        if mixed(p) {
            lemma_child_mixed(p, w[0], defs, depth);
        }
        lemma_left_in_form(p, w[0], defs, depth);
        lemma_remaining_mixed(
            child_derivative(p, w[0], defs, depth),
            w.drop_first(),
            defs,
            depth,
        );
    }
}

/// The first `n` children of mixed content are taken as they are, or nothing is left after
/// them either way.
proof fn lemma_none_left_out(
    p: PatternModel,
    children: Seq<ContentModel>,
    n: nat,
    bindings: Bindings,
    defs: Defs,
    registry: RegistryModel,
)
    requires
        n <= children.len(),
        mixed(p),
        in_form(p, false),
        defs_in_form(defs),
    ensures
        ({
            let taken = as_taken(p, children, n, bindings, defs, registry);
            let all = sequence(children, n, bindings, defs, registry);
            ||| taken == all
            ||| remaining(p, taken, defs, MAX_DEPTH as nat) is NotAllowed && remaining(
                p,
                all,
                defs,
                MAX_DEPTH as nat,
            ) is NotAllowed
        }),
    decreases n,
{
    if n > 0 {
        let m = (n - 1) as nat;
        let depth = MAX_DEPTH as nat;
        lemma_none_left_out(p, children, m, bindings, defs, registry);
        let taken = as_taken(p, children, m, bindings, defs, registry);
        let all = sequence(children, m, bindings, defs, registry);
        let here = remaining(p, taken, defs, depth);
        lemma_remaining_mixed(p, taken, defs, depth);
        match children[n - 1] {
            ContentModel::Text(text) => {
                let child = text_child(text, bindings, defs, registry);
                lemma_remaining_push(p, taken, child, defs, depth);
                lemma_remaining_push(p, all, child, defs, depth);
                if mixed(here) {
                    lemma_takes_text(here, child, defs, depth);
                }
            },
            ContentModel::Element(element) => {
                let child = child_event(element, defs, registry);
                lemma_remaining_push(p, taken, child, defs, depth);
                lemma_remaining_push(p, all, child, defs, depth);
            },
        }
    }
}

/// Where the content model is interleaved with text, an element is valid exactly where it
/// describes the attributes of the element, in whatever order, together with its children, in
/// their order. No text is left out, be it blank or not.
pub proof fn law_mixed_content_takes_all_text(
    content: PatternModel,
    shape: Shape,
    element: ElementModel,
    defs: Defs,
    registry: RegistryModel,
)
    requires
        orderly(content, shape, defs),
        mixed(content),
    ensures
        ({
            let children = element.children;
            is_valid(content, element, defs, registry) <==> meets(
                content,
                having(
                    element,
                    sequence(children, children.len(), element.bindings, defs, registry),
                ),
                setting(element, defs, registry),
                MAX_DEPTH as nat,
            )
        }),
{
    let attributes = in_order(element.attributes);
    let depth = MAX_DEPTH as nat;
    let e = setting(element, defs, registry);
    let n = element.children.len();
    let all = sequence(element.children, n, element.bindings, defs, registry);
    law_valid_elements_match_their_content(content, shape, element, defs, registry);
    lemma_taken(content, shape, attributes, attributes.len(), only(all), e);
    lemma_ordered(element, only(all));
    lemma_taken_mixed(content, attributes, attributes.len(), e);
    match taken_attributes(
        content,
        attributes,
        attributes.len(),
        element.bindings,
        defs,
        registry,
    ) {
        Some(p) => {
            let taken = as_taken(p, element.children, n, element.bindings, defs, registry);
            lemma_none_left_out(p, element.children, n, element.bindings, defs, registry);
            lemma_taken(content, shape, attributes, attributes.len(), only(taken), e);
            lemma_ordered(element, only(taken));
            lemma_recognized(p, taken, e, depth);
            lemma_recognized(p, all, e, depth);
            assert(!is_nullable(PatternModel::NotAllowed, defs, registry, depth));
        },
        None => {},
    }
}

} // verus!
