//! What data, values and lists mean on their own: by what their library says of a text, and
//! by what their exceptions and their parts mean.
use vstd::prelude::*;

use crate::algebra::{
    choice_of, group_of, interleave_of, lemma_without_members, without, without_identity,
};
use crate::attribute_order::in_order;
use crate::compose::operands;
use crate::conformance::{lemma_text, text_child};
use crate::contents::nested;
use crate::datatypes::registry::{Bindings, RegistryModel};
use crate::derivative::{
    all_expect_text, all_structurally_empty, alternatives, branch_at, child_derivative,
    child_derivatives, closed_position, closed_positions, contained, excluded, expects_text,
    is_nullable, list_accepts, param_texts, some_nullable, some_structurally_empty,
    structurally_empty, text_derivative, text_derivatives, value_fits, Child, Container, Defs,
    MAX_DEPTH,
};
use crate::expectation::lemma_allowed;
use crate::grammar::{ContextModel, NameModel, PatternModel};
use crate::grounded::{all_grounded, grounded, lemma_child_grounded, lemma_empty_steady};
use crate::language::{
    accepts, law_child_sequences_are_recognized, lemma_accepts_nothing, lemma_deeper,
    lemma_join_nothing, lemma_last_time, lemma_nothing_together, lemma_one_more_time,
    lemma_parts, lemma_whole, positive, remaining, some_times, some_within, times, together,
    within, Word,
};
use crate::name_class::holds_name;
use crate::shapes::{all_attribute_free, attribute_free};
use crate::simplify::SchemaModel;
use crate::string_map::{has_key, lookup};
use crate::text::{blank, or_empty, tokens, Text};
use crate::validator::{
    child_event, document_errors, is_valid, law_valid_documents_have_no_problems, ContentModel,
    ElementModel,
};

verus! {

// ---------------------------------------------------------------------
// Data and values
// ---------------------------------------------------------------------

/// Whether a text is what a pattern of data means: a `data` takes what its library accepts for
/// the datatype with its parameters, save what one of its exceptions takes, a `value` takes
/// what its library holds to be the same, and alternatives take what one of them does.
pub open spec fn takes(
    p: PatternModel,
    text: Text,
    registry: RegistryModel,
    context: Bindings,
) -> bool
    decreases p,
{
    match p {
        PatternModel::Data { datatype, datatype_library, params, except, context: c } => {
            &&& match lookup(registry, or_empty(datatype_library)) {
                Some(library) => (library.accepts)(
                    datatype,
                    Seq::new(params.len(), |i: int| (params[i].name, params[i].value)),
                    text,
                    context,
                ),
                None => false,
            }
            &&& forall|i: int|
                0 <= i < except.len() ==> !takes(#[trigger] except[i], text, registry, context)
        },
        PatternModel::Value { value, datatype, datatype_library, namespace, context: c } =>
            match lookup(registry, or_empty(datatype_library)) {
                Some(library) => (library.same)(
                    if datatype is Some {
                        datatype->0
                    } else {
                        "token"@
                    },
                    value,
                    c.namespaces.push((Seq::empty(), or_empty(namespace))),
                    text,
                    context,
                ),
                None => false,
            },
        PatternModel::Choice(values) => exists|i: int|
            0 <= i < values.len() && takes(#[trigger] values[i], text, registry, context),
        _ => false,
    }
}

/// Whether a pattern is data: a `data` with such exceptions, a `value`, or alternatives of
/// them.
pub open spec fn leaf(p: PatternModel) -> bool
    decreases p,
{
    match p {
        PatternModel::Data { datatype, datatype_library, params, except, context } => forall|i: int|
            0 <= i < except.len() ==> leaf(#[trigger] except[i]),
        PatternModel::Value { value, datatype, datatype_library, namespace, context } => true,
        PatternModel::Choice(values) => forall|i: int|
            0 <= i < values.len() ==> leaf(#[trigger] values[i]),
        _ => false,
    }
}

/// What is left of data after a text: nothing where it takes it, and nothing allowed where it
/// does not.
proof fn lemma_taken(
    p: PatternModel,
    text: Text,
    defs: Defs,
    registry: RegistryModel,
    context: Bindings,
    depth: nat,
    k: nat,
)
    requires
        leaf(p),
        nested(p, k),
        k <= depth,
    ensures
        text_derivative(p, text, defs, registry, context, depth) is NotAllowed <==> !takes(
            p,
            text,
            registry,
            context,
        ),
        forall|d: nat|
            is_nullable(
                text_derivative(p, text, defs, registry, context, depth),
                defs,
                registry,
                #[trigger] as_depth(d),
            ) == takes(p, text, registry, context),
    decreases p,
{
    let left = text_derivative(p, text, defs, registry, context, depth);
    match p {
        PatternModel::Data { datatype, datatype_library, params, except, context: c } => {
            assert(param_texts(params) =~= Seq::new(
                params.len(),
                |i: int| (params[i].name, params[i].value),
            ));
            let below = (depth - 1) as nat;
            assert forall|i: int| 0 <= i < except.len() implies is_nullable(
                text_derivative(#[trigger] except[i], text, defs, registry, context, below),
                defs,
                registry,
                below,
            ) == takes(except[i], text, registry, context) by {
                assert(nested(except[i], (k - 1) as nat));
                lemma_taken(except[i], text, defs, registry, context, below, (k - 1) as nat);
                assert(as_depth(below) == below);
            }
            assert(excluded(except, text, defs, registry, context, depth) <==> exists|i: int|
                0 <= i < except.len() && takes(#[trigger] except[i], text, registry, context));
        },
        PatternModel::Value { value, datatype, datatype_library, namespace, context: c } => {},
        PatternModel::Choice(values) => {
            let out = text_derivatives(values, text, defs, registry, context, depth);
            assert forall|i: int| 0 <= i < values.len() implies (out[i] is NotAllowed <==> !takes(
                #[trigger] values[i],
                text,
                registry,
                context,
            )) && (forall|d: nat|
                is_nullable(out[i], defs, registry, #[trigger] as_depth(d)) == takes(
                    values[i],
                    text,
                    registry,
                    context,
                )) by {
                assert(nested(values[i], k));
                lemma_taken(values[i], text, defs, registry, context, depth, k);
            }
            lemma_allowed(out);
            let rest = without(out, PatternModel::NotAllowed);
            lemma_without_members(out, PatternModel::NotAllowed);
            assert forall|j: int, d: nat| 0 <= j < rest.len() implies is_nullable(
                #[trigger] rest[j],
                defs,
                registry,
                #[trigger] as_depth(d),
            ) by {
                assert(rest.contains(rest[j]));
                assert(out.contains(rest[j]) && rest[j] != PatternModel::NotAllowed);
                let i = choose|i: int| 0 <= i < out.len() && out[i] == rest[j];
                assert(takes(values[i], text, registry, context));
            }
            assert forall|d: nat|
                is_nullable(left, defs, registry, #[trigger] as_depth(d)) == takes(
                    p,
                    text,
                    registry,
                    context,
                ) by {
                if takes(p, text, registry, context) {
                    let i = choose|i: int|
                        0 <= i < values.len() && takes(
                            #[trigger] values[i],
                            text,
                            registry,
                            context,
                        );
                    assert(!(out[i] is NotAllowed));
                    assert(out.contains(out[i]));
                    assert(rest.contains(out[i]));
                    assert(rest.len() > 0);
                    assert(is_nullable(rest[0], defs, registry, as_depth(d)));
                    if rest.len() > 1 {
                        assert(some_nullable(rest, defs, registry, as_depth(d)));
                    }
                } else {
                    assert forall|i: int| 0 <= i < out.len() implies #[trigger] out[i]
                        is NotAllowed by {
                        assert(!takes(values[i], text, registry, context));
                    }
                }
            }
        },
        _ => {},
    }
}

/// A depth.
pub open spec fn as_depth(d: nat) -> nat {
    d
}

/// Data wants text.
proof fn lemma_wants_text(p: PatternModel, defs: Defs, depth: nat)
    requires
        leaf(p),
    ensures
        expects_text(p, defs, depth),
    decreases p,
{
    match p {
        PatternModel::Choice(values) => {
            assert forall|i: int| 0 <= i < values.len() implies expects_text(
                #[trigger] values[i],
                defs,
                depth,
            ) by {
                lemma_wants_text(values[i], defs, depth);
            }
            assert(all_expect_text(values, defs, depth));
        },
        _ => {},
    }
}

/// What accepts that nothing follows, of data: what takes the empty text.
proof fn lemma_taken_nothing(
    p: PatternModel,
    defs: Defs,
    registry: RegistryModel,
    depth: nat,
    k: nat,
)
    requires
        leaf(p),
        nested(p, k),
        k <= depth,
    ensures
        is_nullable(p, defs, registry, depth) <==> takes(
            p,
            Seq::empty(),
            registry,
            Seq::empty(),
        ),
    decreases p,
{
    let none = Seq::<char>::empty();
    match p {
        PatternModel::Data { datatype, datatype_library, params, except, context } => {
            lemma_taken(p, none, defs, registry, Seq::empty(), depth, k);
        },
        PatternModel::Value { value, datatype, datatype_library, namespace, context } => {
            lemma_taken(p, none, defs, registry, Seq::empty(), depth, k);
        },
        PatternModel::Choice(values) => {
            assert forall|i: int| 0 <= i < values.len() implies is_nullable(
                #[trigger] values[i],
                defs,
                registry,
                depth,
            ) == takes(values[i], none, registry, Seq::empty()) by {
                assert(nested(values[i], k));
                lemma_taken_nothing(values[i], defs, registry, depth, k);
            }
            assert(is_nullable(p, defs, registry, depth) == some_nullable(
                values,
                defs,
                registry,
                depth,
            ));
        },
        _ => {},
    }
}

/// An element whose content model is data, and which has no attributes, is valid with one run
/// of text exactly where the data takes it: the library accepts it, and no exception does. It
/// is valid without children where the data takes the empty text.
pub proof fn law_data_is_what_its_library_says(
    p: PatternModel,
    element: ElementModel,
    text: Text,
    defs: Defs,
    registry: RegistryModel,
    k: nat,
)
    requires
        leaf(p),
        nested(p, k),
        k <= MAX_DEPTH,
        element.attributes.len() == 0,
    ensures
        element.children == seq![ContentModel::Text(text)] ==> (is_valid(
            p,
            element,
            defs,
            registry,
        ) <==> takes(p, text, registry, element.bindings)),
        element.children.len() == 0 ==> (is_valid(p, element, defs, registry) <==> takes(
            p,
            Seq::empty(),
            registry,
            Seq::empty(),
        )),
{
    let depth = MAX_DEPTH as nat;
    lemma_taken(p, text, defs, registry, element.bindings, depth, k);
    lemma_taken_nothing(p, defs, registry, depth, k);
    lemma_wants_text(p, defs, depth);
    assert(as_depth(depth) == depth);
    crate::attribute_order::lemma_total();
    element.attributes.lemma_sort_by_ensures(crate::attribute_order::by_name());
    let all = in_order(element.attributes);
    assert(all.len() == 0) by {
        all.to_multiset_ensures();
        element.attributes.to_multiset_ensures();
    }
    reveal_with_fuel(crate::validator::taken_children, 3);
}

/// A document is what a schema of one element with data describes, exactly where its root is
/// of the name and its only text, or the empty one, is what the data takes.
pub proof fn law_documents_of_data(
    schema: SchemaModel,
    name: NameModel,
    p: PatternModel,
    context: ContextModel,
    document: ElementModel,
    text: Text,
    registry: RegistryModel,
    k: nat,
)
    requires
        schema.start == (PatternModel::Element { name, body: seq![p], context }),
        leaf(p),
        nested(p, k),
        k <= MAX_DEPTH,
        document.attributes.len() == 0,
        document.children == seq![ContentModel::Text(text)],
    ensures
        document_errors(schema, registry, document).len() == 0 <==> holds_name(
            name,
            document.name.namespace,
            document.name.local,
        ) && takes(p, text, registry, document.bindings),
{
    let defs = schema.definitions;
    law_data_is_what_its_library_says(p, document, text, defs, registry, k);
    law_valid_documents_have_no_problems(schema, registry, document);
    assert(seq![p][0] == p);
    assert(child_event(document, defs, registry) is Element);
}

// ---------------------------------------------------------------------
// What holds no attribute
// ---------------------------------------------------------------------

/// Whether a pattern holds no attribute, however far references are followed.
pub open spec fn bare(p: PatternModel, defs: Defs) -> bool {
    forall|depth: nat| #[trigger] attribute_free(p, defs, depth)
}

/// Whether patterns hold no attribute, however far references are followed.
spec fn all_bare(s: Seq<PatternModel>, defs: Defs) -> bool {
    forall|i: int| 0 <= i < s.len() ==> bare(#[trigger] s[i], defs)
}

/// The operands of what holds no attribute hold none.
proof fn lemma_bare_operands(p: PatternModel, defs: Defs)
    requires
        bare(p, defs),
        p is Group || p is Interleave || p is Choice || p is OneOrMore,
    ensures
        all_bare(operands(p)->0, defs),
{
    let s = operands(p)->0;
    assert forall|i: int| 0 <= i < s.len() implies bare(#[trigger] s[i], defs) by {
        assert forall|depth: nat| #[trigger] attribute_free(s[i], defs, depth) by {
            assert(attribute_free(p, defs, depth));
            assert(all_attribute_free(s, defs, depth));
        }
    }
}

/// What a reference to what holds no attribute refers to holds none.
proof fn lemma_bare_target(name: Text, defs: Defs)
    requires
        bare(PatternModel::Ref(name), defs),
        has_key(defs, name),
    ensures
        bare(lookup(defs, name)->0, defs),
{
    assert forall|depth: nat| #[trigger] attribute_free(lookup(defs, name)->0, defs, depth) by {
        assert(attribute_free(PatternModel::Ref(name), defs, depth + 1));
    }
}

/// Groups, interleaves and choices of what holds no attribute hold none.
proof fn lemma_algebra_bare(s: Seq<PatternModel>, defs: Defs)
    requires
        all_bare(s, defs),
    ensures
        bare(group_of(s), defs),
        bare(interleave_of(s), defs),
        bare(choice_of(s), defs),
{
    let rest = without_identity(s);
    let chosen = without(s, PatternModel::NotAllowed);
    lemma_without_members(s, PatternModel::Empty);
    lemma_without_members(s, PatternModel::NotAllowed);
    assert forall|i: int| 0 <= i < rest.len() implies bare(#[trigger] rest[i], defs) by {
        assert(rest.contains(rest[i]));
        if s.len() > 1 {
            assert(rest[i] != PatternModel::Empty);
        }
        assert(s.contains(rest[i]));
        let j = choose|j: int| 0 <= j < s.len() && s[j] == rest[i];
        assert(bare(s[j], defs));
    }
    assert forall|i: int| 0 <= i < chosen.len() implies bare(#[trigger] chosen[i], defs) by {
        assert(chosen.contains(chosen[i]));
        assert(chosen[i] != PatternModel::NotAllowed);
        assert(s.contains(chosen[i]));
        let j = choose|j: int| 0 <= j < s.len() && s[j] == chosen[i];
        assert(bare(s[j], defs));
    }
    lemma_compound_bare(rest, defs);
    lemma_compound_bare(chosen, defs);
    assert(bare(PatternModel::Empty, defs));
    assert(bare(PatternModel::NotAllowed, defs));
}

/// A group, an interleave or a choice of what holds no attribute holds none.
proof fn lemma_compound_bare(s: Seq<PatternModel>, defs: Defs)
    requires
        all_bare(s, defs),
    ensures
        bare(PatternModel::Group(s), defs),
        bare(PatternModel::Interleave(s), defs),
        bare(PatternModel::Choice(s), defs),
{
    assert forall|depth: nat| #[trigger] all_attribute_free(s, defs, depth) by {
        assert forall|i: int| 0 <= i < s.len() implies attribute_free(
            #[trigger] s[i],
            defs,
            depth,
        ) by {
            assert(bare(s[i], defs));
        }
    }
    assert forall|depth: nat| #[trigger] attribute_free(PatternModel::Group(s), defs, depth) by {
        assert(all_attribute_free(s, defs, depth));
    }
    assert forall|depth: nat| #[trigger]
        attribute_free(PatternModel::Interleave(s), defs, depth) by {
        assert(all_attribute_free(s, defs, depth));
    }
    assert forall|depth: nat| #[trigger] attribute_free(PatternModel::Choice(s), defs, depth) by {
        assert(all_attribute_free(s, defs, depth));
    }
}

/// What is left of a position that was passed over holds no attribute where it held none.
proof fn lemma_closed_bare(p: PatternModel, defs: Defs, depth: nat)
    requires
        bare(p, defs),
    ensures
        bare(closed_position(p, defs, depth), defs),
    decreases depth, p,
{
    assert(attribute_free(p, defs, depth));
    assert(bare(PatternModel::Empty, defs));
    assert(bare(PatternModel::NotAllowed, defs));
    if p is Group || p is Interleave || p is Choice || p is OneOrMore {
        lemma_bare_operands(p, defs);
    }
    match p {
        PatternModel::Group(values) => {
            lemma_all_closed_bare(values, defs, depth);
            lemma_algebra_bare(closed_positions(values, defs, depth), defs);
        },
        PatternModel::Interleave(values) => {
            lemma_all_closed_bare(values, defs, depth);
            lemma_algebra_bare(closed_positions(values, defs, depth), defs);
        },
        PatternModel::Choice(values) => {
            lemma_all_closed_bare(values, defs, depth);
            lemma_algebra_bare(closed_positions(values, defs, depth), defs);
        },
        PatternModel::OneOrMore(values) => {
            if values.len() > 0 {
                assert(bare(values[0], defs));
                lemma_closed_bare(values[0], defs, depth);
            }
        },
        PatternModel::Ref(name) => {
            if depth > 0 && has_key(defs, name) {
                lemma_bare_target(name, defs);
                lemma_closed_bare(lookup(defs, name)->0, defs, (depth - 1) as nat);
            }
        },
        _ => {},
    }
}

/// What is left of positions that were passed over holds no attribute where they held none.
proof fn lemma_all_closed_bare(s: Seq<PatternModel>, defs: Defs, depth: nat)
    requires
        all_bare(s, defs),
    ensures
        all_bare(closed_positions(s, defs, depth), defs),
    decreases depth, s,
{
    let out = closed_positions(s, defs, depth);
    assert forall|i: int| 0 <= i < out.len() implies bare(#[trigger] out[i], defs) by {
        assert(bare(s[i], defs));
        lemma_closed_bare(s[i], defs, depth);
    }
}

/// The alternatives of matching at one of the first `n` operands hold no attribute where the
/// operands and what is left of them hold none.
proof fn lemma_alternatives_bare(
    values: Seq<PatternModel>,
    derived: Seq<PatternModel>,
    sequential: bool,
    container: Container,
    defs: Defs,
    depth: nat,
    n: nat,
)
    requires
        n <= values.len(),
        values.len() == derived.len(),
        all_bare(values, defs),
        all_bare(derived, defs),
    ensures
        all_bare(alternatives(values, derived, sequential, container, defs, depth, n), defs),
    decreases n,
{
    if n > 0 {
        let m = (n - 1) as nat;
        lemma_alternatives_bare(values, derived, sequential, container, defs, depth, m);
        let before = alternatives(values, derived, sequential, container, defs, depth, m);
        let s = alternatives(values, derived, sequential, container, defs, depth, n);
        let branch = branch_at(values, derived, sequential, m as int, defs, depth);
        assert forall|i: int| 0 <= i < branch.len() implies bare(#[trigger] branch[i], defs) by {
            assert(bare(values[i], defs));
            assert(bare(derived[i], defs));
            lemma_closed_bare(values[i], defs, depth);
        }
        lemma_algebra_bare(branch, defs);
        assert forall|j: int| 0 <= j < s.len() implies bare(#[trigger] s[j], defs) by {
            if j < before.len() {
                assert(bare(before[j], defs));
            } else {
                assert(s[j] == contained(container, branch));
            }
        }
    }
}

/// What is left after a child holds no attribute where there was none.
proof fn lemma_child_bare(p: PatternModel, child: Child, defs: Defs, depth: nat)
    requires
        bare(p, defs),
    ensures
        bare(child_derivative(p, child, defs, depth), defs),
    decreases depth, p,
{
    assert(bare(PatternModel::Empty, defs));
    assert(bare(PatternModel::NotAllowed, defs));
    assert(bare(PatternModel::Text, defs));
    if p is Group || p is Interleave || p is Choice || p is OneOrMore {
        lemma_bare_operands(p, defs);
    }
    match p {
        PatternModel::Group(values) => {
            lemma_children_bare(values, child, defs, depth);
            let out = child_derivatives(values, child, defs, depth);
            let n = values.len();
            let c = Container::Group;
            lemma_alternatives_bare(values, out, true, c, defs, depth, n);
            lemma_algebra_bare(alternatives(values, out, true, c, defs, depth, n), defs);
        },
        PatternModel::Interleave(values) => {
            lemma_children_bare(values, child, defs, depth);
            let out = child_derivatives(values, child, defs, depth);
            let n = values.len();
            let c = Container::Interleave;
            lemma_alternatives_bare(values, out, false, c, defs, depth, n);
            lemma_algebra_bare(alternatives(values, out, false, c, defs, depth, n), defs);
        },
        PatternModel::Choice(values) => {
            lemma_children_bare(values, child, defs, depth);
            lemma_algebra_bare(child_derivatives(values, child, defs, depth), defs);
        },
        PatternModel::OneOrMore(values) => {
            if values.len() > 0 {
                assert(bare(values[0], defs));
                lemma_child_bare(values[0], child, defs, depth);
                let again = seq![p, PatternModel::Empty];
                assert(all_bare(again, defs));
                lemma_algebra_bare(again, defs);
                let derived = child_derivative(values[0], child, defs, depth);
                let both = seq![derived, choice_of(again)];
                assert(all_bare(both, defs));
                lemma_algebra_bare(both, defs);
            }
        },
        PatternModel::Ref(name) => {
            if depth > 0 && has_key(defs, name) {
                lemma_bare_target(name, defs);
                lemma_child_bare(lookup(defs, name)->0, child, defs, (depth - 1) as nat);
            }
        },
        _ => {},
    }
}

/// What is left of each after a child holds no attribute where there was none.
proof fn lemma_children_bare(s: Seq<PatternModel>, child: Child, defs: Defs, depth: nat)
    requires
        all_bare(s, defs),
    ensures
        all_bare(child_derivatives(s, child, defs, depth), defs),
    decreases depth, s,
{
    let out = child_derivatives(s, child, defs, depth);
    assert forall|i: int| 0 <= i < out.len() implies bare(#[trigger] out[i], defs) by {
        assert(bare(s[i], defs));
        lemma_child_bare(s[i], child, defs, depth);
    }
}

/// What holds no attribute and is satisfied by no event accepts that there are no children.
proof fn lemma_empty_accepts(p: PatternModel, defs: Defs, depth: nat)
    requires
        attribute_free(p, defs, depth),
        structurally_empty(p, defs, depth),
    ensures
        within(p, Seq::empty(), defs, depth),
    decreases depth, p,
{
    let none = Seq::<Child>::empty();
    match p {
        PatternModel::Group(values) => {
            lemma_all_empty_accept(values, defs, depth);
            lemma_nothing_together(true, values, values.len(), defs, depth);
        },
        PatternModel::Interleave(values) => {
            lemma_all_empty_accept(values, defs, depth);
            lemma_nothing_together(false, values, values.len(), defs, depth);
        },
        PatternModel::Choice(values) => {
            assert(all_attribute_free(values, defs, depth));
            assert(some_structurally_empty(values, defs, depth));
            let i = choose|i: int|
                0 <= i < values.len() && structurally_empty(#[trigger] values[i], defs, depth);
            lemma_empty_accepts(values[i], defs, depth);
            assert(some_within(values, none, defs, depth));
        },
        PatternModel::OneOrMore(values) => {
            let q = values[0];
            assert(all_attribute_free(values, defs, depth));
            lemma_empty_accepts(q, defs, depth);
            lemma_join_nothing(true, none, none);
            assert(times(q, 0, none, defs, depth));
            lemma_one_more_time(q, 1, none, none, none, defs, depth);
            assert(positive(1));
            assert(some_times(q, none, defs, depth));
        },
        PatternModel::Ref(name) => {
            lemma_empty_accepts(lookup(defs, name)->0, defs, (depth - 1) as nat);
        },
        _ => {},
    }
}

/// What hold no attribute and are satisfied by no event accept that there are no children.
proof fn lemma_all_empty_accept(s: Seq<PatternModel>, defs: Defs, depth: nat)
    requires
        all_attribute_free(s, defs, depth),
        all_structurally_empty(s, defs, depth),
    ensures
        forall|i: int| 0 <= i < s.len() ==> within(#[trigger] s[i], Seq::empty(), defs, depth),
    decreases depth, s,
{
    assert forall|i: int| 0 <= i < s.len() implies within(
        #[trigger] s[i],
        Seq::empty(),
        defs,
        depth,
    ) by {
        assert(attribute_free(s[i], defs, depth));
        assert(structurally_empty(s[i], defs, depth));
        lemma_empty_accepts(s[i], defs, depth);
    }
}

// ---------------------------------------------------------------------
// Lists, and values of attributes
// ---------------------------------------------------------------------

/// Texts as children, one after the other.
pub open spec fn words(
    parts: Seq<Text>,
    context: Bindings,
    defs: Defs,
    registry: RegistryModel,
) -> Word {
    Seq::new(parts.len(), |i: int| text_child(parts[i], context, defs, registry))
}

/// Nothing is left of what is not allowed.
proof fn lemma_nothing_remains(w: Word, defs: Defs, depth: nat)
    ensures
        remaining(PatternModel::NotAllowed, w, defs, depth) is NotAllowed,
    decreases w.len(),
{
    if w.len() > 0 {
        lemma_nothing_remains(w.drop_first(), defs, depth);
    }
}

/// A list takes its tokens as what it holds takes them as children.
proof fn lemma_list(
    p: PatternModel,
    parts: Seq<Text>,
    defs: Defs,
    registry: RegistryModel,
    context: Bindings,
    depth: nat,
)
    requires
        grounded(p, defs, depth),
        depth <= MAX_DEPTH,
        bare(p, defs),
    ensures
        ({
            let left = remaining(p, words(parts, context, defs, registry), defs, depth);
            &&& bare(left, defs)
            &&& list_accepts(p, parts, defs, registry, context, depth) == structurally_empty(
                left,
                defs,
                depth,
            )
        }),
    decreases parts.len(),
{
    let w = words(parts, context, defs, registry);
    if parts.len() > 0 {
        let child = text_child(parts[0], context, defs, registry);
        let next = child_derivative(p, child, defs, depth);
        lemma_text(p, parts[0], defs, registry, context, depth);
        lemma_child_grounded(p, child, defs, depth);
        lemma_child_bare(p, child, defs, depth);
        lemma_list(next, parts.drop_first(), defs, registry, context, depth);
        assert(w[0] == child);
        assert(w.drop_first() =~= words(parts.drop_first(), context, defs, registry));
        if next is NotAllowed {
            lemma_nothing_remains(w.drop_first(), defs, depth);
        }
    }
}

/// A list takes a text exactly where what it holds accepts the tokens of the text, those that
/// whitespace parts, one after the other.
pub proof fn law_lists_take_their_tokens(
    p: PatternModel,
    text: Text,
    defs: Defs,
    registry: RegistryModel,
    context: Bindings,
)
    requires
        grounded(p, defs, (MAX_DEPTH - 1) as nat),
        bare(p, defs),
    ensures
        text_derivative(
            PatternModel::List(seq![p]),
            text,
            defs,
            registry,
            context,
            MAX_DEPTH as nat,
        ) == (if accepts(p, words(tokens(text), context, defs, registry), defs) {
            PatternModel::Empty
        } else {
            PatternModel::NotAllowed
        }),
{
    let depth = (MAX_DEPTH - 1) as nat;
    let w = words(tokens(text), context, defs, registry);
    assert(seq![p][0] == p);
    lemma_recognized_words(p, tokens(text), defs, registry, context, depth);
}

/// What a grounded pattern accepts at all it accepts within the depth.
proof fn lemma_within_steady(p: PatternModel, w: Word, defs: Defs, d: nat, depth: nat)
    requires
        grounded(p, defs, depth),
        within(p, w, defs, d),
    ensures
        within(p, w, defs, depth),
{
    if d <= depth {
        lemma_deeper(p, w, defs, d, depth);
    } else {
        lemma_within_shallower(p, w, defs, d, depth);
    }
}

/// What a grounded pattern accepts within more than the depth it accepts within it.
proof fn lemma_within_shallower(p: PatternModel, w: Word, defs: Defs, d: nat, depth: nat)
    requires
        grounded(p, defs, depth),
        within(p, w, defs, d),
        depth <= d,
    ensures
        within(p, w, defs, depth),
    decreases depth, p, 0nat, 0nat,
{
    match p {
        PatternModel::List(values) => {
            if w.len() == 0 && values.len() > 0 {
                let below = (depth - 1) as nat;
                assert(all_grounded(values, defs, below));
                lemma_empty_steady(values[0], defs, below, d);
                lemma_empty_steady(values[0], defs, below, depth);
            }
        },
        PatternModel::Choice(values) => {
            assert(all_grounded(values, defs, depth));
            assert(some_within(values, w, defs, d));
            let i = choose|i: int|
                0 <= i < values.len() && within(#[trigger] values[i], w, defs, d);
            lemma_within_shallower(values[i], w, defs, d, depth);
            assert(some_within(values, w, defs, depth));
        },
        PatternModel::Group(values) => {
            assert(all_grounded(values, defs, depth));
            lemma_together_shallower(true, values, values.len(), w, defs, d, depth);
        },
        PatternModel::Interleave(values) => {
            assert(all_grounded(values, defs, depth));
            lemma_together_shallower(false, values, values.len(), w, defs, d, depth);
        },
        PatternModel::OneOrMore(values) => {
            assert(all_grounded(values, defs, depth));
            let q = values[0];
            assert(some_times(q, w, defs, d));
            let m = choose|m: nat| #[trigger] positive(m) && times(q, m, w, defs, d);
            lemma_times_shallower(q, m, w, defs, d, depth);
            assert(positive(m));
            assert(some_times(q, w, defs, depth));
        },
        PatternModel::Ref(name) => {
            lemma_within_shallower(
                lookup(defs, name)->0,
                w,
                defs,
                (d - 1) as nat,
                (depth - 1) as nat,
            );
        },
        _ => {},
    }
}

/// What grounded patterns accept together within more than the depth they accept within it.
proof fn lemma_together_shallower(
    ordered: bool,
    s: Seq<PatternModel>,
    n: nat,
    w: Word,
    defs: Defs,
    d: nat,
    depth: nat,
)
    requires
        n <= s.len(),
        all_grounded(s, defs, depth),
        together(ordered, s, n, w, defs, d),
        depth <= d,
    ensures
        together(ordered, s, n, w, defs, depth),
    decreases depth, s, n, 1nat,
{
    if n > 0 {
        let (u, v) = lemma_parts(ordered, s, n, w, defs, d);
        assert(grounded(s[n - 1], defs, depth));
        lemma_together_shallower(ordered, s, (n - 1) as nat, u, defs, d, depth);
        lemma_within_shallower(s[n - 1], v, defs, d, depth);
        lemma_whole(ordered, s, n, u, v, w, defs, depth);
    }
}

/// What a grounded pattern accepts some times within more than the depth it accepts so many
/// times within it.
proof fn lemma_times_shallower(
    p: PatternModel,
    m: nat,
    w: Word,
    defs: Defs,
    d: nat,
    depth: nat,
)
    requires
        grounded(p, defs, depth),
        times(p, m, w, defs, d),
        depth <= d,
    ensures
        times(p, m, w, defs, depth),
    decreases depth, p, 1nat, m,
{
    if m > 0 {
        let (u, v) = lemma_last_time(p, m, w, defs, d);
        lemma_times_shallower(p, (m - 1) as nat, u, defs, d, depth);
        lemma_within_shallower(p, v, defs, d, depth);
        lemma_one_more_time(p, m, u, v, w, defs, depth);
    }
}

/// What holds no attribute takes texts as children just where nothing more is needed after
/// them.
proof fn lemma_recognized_words(
    p: PatternModel,
    parts: Seq<Text>,
    defs: Defs,
    registry: RegistryModel,
    context: Bindings,
    depth: nat,
)
    requires
        grounded(p, defs, depth),
        depth <= MAX_DEPTH,
        bare(p, defs),
    ensures
        list_accepts(p, parts, defs, registry, context, depth) <==> accepts(
            p,
            words(parts, context, defs, registry),
            defs,
        ),
{
    let w = words(parts, context, defs, registry);
    let left = remaining(p, w, defs, depth);
    lemma_list(p, parts, defs, registry, context, depth);
    law_child_sequences_are_recognized(p, w, defs, depth);
    if structurally_empty(left, defs, depth) {
        assert(attribute_free(left, defs, depth));
        lemma_empty_accepts(left, defs, depth);
    }
    if accepts(p, w, defs) {
        let d = choose|d: nat| #[trigger] within(p, w, defs, d);
        lemma_within_steady(p, w, defs, d, depth);
        lemma_accepts_nothing(left, defs, depth);
    }
}

/// An attribute takes a value with some text in it exactly where what it holds accepts the
/// value as its only child, and one of nothing but whitespace also where nothing in it wants
/// text.
pub proof fn law_attribute_values_are_their_text(
    p: PatternModel,
    value: Text,
    defs: Defs,
    registry: RegistryModel,
    context: Bindings,
)
    requires
        grounded(p, defs, MAX_DEPTH as nat),
        bare(p, defs),
    ensures
        value_fits(p, value, defs, registry, context, MAX_DEPTH as nat) <==> accepts(
            p,
            seq![text_child(value, context, defs, registry)],
            defs,
        ) || blank(value) && !expects_text(p, defs, MAX_DEPTH as nat),
{
    let depth = MAX_DEPTH as nat;
    let parts = seq![value];
    let w = words(parts, context, defs, registry);
    assert(w =~= seq![text_child(value, context, defs, registry)]);
    lemma_recognized_words(p, parts, defs, registry, context, depth);
    reveal_with_fuel(list_accepts, 2);
    assert(parts.drop_first() =~= Seq::<Text>::empty());
    assert(parts[0] == value);
}

} // verus!
