//! What it is for a document to be valid: its root is an element that the schema can start
//! with, and its content is valid there.
use vstd::prelude::*;

use crate::algebra::choice_of;
use crate::compose::compiled;
use crate::datatypes::registry::RegistryModel;
use crate::derivative::{child_derivative, child_derivatives, Child, Defs, Event, MAX_DEPTH};
use crate::expectation::lemma_allowed;
use crate::grammar::{PatternModel, RootModel};
use crate::name_class::holds_name;
use crate::placement::{law_schemas_start_with_elements, opens_with, some_open_with};
use crate::simplify::Feed;
use crate::string_map::lookup;
use crate::validator::{
    child_event, document_errors, is_valid, law_valid_documents_have_no_problems, ElementModel,
};

verus! {

/// Whether a pattern describes an element: by its name, and by its content.
pub open spec fn describes(
    q: PatternModel,
    element: ElementModel,
    defs: Defs,
    registry: RegistryModel,
) -> bool {
    match q {
        PatternModel::Element { name, body, context } => holds_name(
            name,
            element.name.namespace,
            element.name.local,
        ) && body.len() > 0 && is_valid(body[0], element, defs, registry),
        _ => false,
    }
}

/// Whether a pattern is an element pattern that a child is what it describes of.
spec fn taken_by(q: PatternModel, event: Event) -> bool {
    match q {
        PatternModel::Element { name, body, context } => event(name, body),
        _ => false,
    }
}

/// Whether some element pattern that a start comes to takes a child.
spec fn some_take(p: PatternModel, event: Event, defs: Defs, depth: nat) -> bool {
    exists|q: PatternModel| #[trigger] opens_with(p, q, defs, depth) && taken_by(q, event)
}

/// Whether a start comes to nothing but elements, and what is not allowed.
spec fn starts_with_elements(p: PatternModel, defs: Defs, depth: nat) -> bool {
    forall|q: PatternModel| #[trigger]
        opens_with(p, q, defs, depth) ==> q is Element || q is NotAllowed || q is Choice || q is Ref
}

/// A child can be first just where some element pattern that a start comes to takes it.
proof fn lemma_first(p: PatternModel, event: Event, defs: Defs, depth: nat)
    requires
        starts_with_elements(p, defs, depth),
    ensures
        !(child_derivative(p, Child::Element(event), defs, depth) is NotAllowed) <==> some_take(
            p,
            event,
            defs,
            depth,
        ),
    decreases depth, p,
{
    let child = Child::Element(event);
    assert(opens_with(p, p, defs, depth));
    match p {
        PatternModel::Choice(values) => {
            let derived = child_derivatives(values, child, defs, depth);
            lemma_each_first(p, values, event, defs, depth);
            lemma_allowed(derived);
            if !(choice_of(derived) is NotAllowed) {
                let i = choose|i: int|
                    0 <= i < derived.len() && !((#[trigger] derived[i]) is NotAllowed);
                assert(some_take(values[i], event, defs, depth));
                let q = choose|q: PatternModel| #[trigger]
                    opens_with(values[i], q, defs, depth) && taken_by(q, event);
                assert(some_open_with(values, q, defs, depth));
                assert(opens_with(p, q, defs, depth));
            }
            if some_take(p, event, defs, depth) {
                let q = choose|q: PatternModel| #[trigger]
                    opens_with(p, q, defs, depth) && taken_by(q, event);
                assert(some_open_with(values, q, defs, depth));
                let i = choose|i: int|
                    0 <= i < values.len() && opens_with(#[trigger] values[i], q, defs, depth);
                assert(some_take(values[i], event, defs, depth));
                assert(!(derived[i] is NotAllowed));
            }
        },
        PatternModel::Ref(name) => {
            if depth > 0 && lookup(defs, name) is Some {
                let target = lookup(defs, name)->0;
                let below = (depth - 1) as nat;
                assert forall|q: PatternModel| #[trigger]
                    opens_with(target, q, defs, below) implies q is Element || q is NotAllowed
                    || q is Choice || q is Ref by {
                    assert(opens_with(p, q, defs, depth));
                }
                lemma_first(target, event, defs, below);
                if some_take(target, event, defs, below) {
                    let q = choose|q: PatternModel| #[trigger]
                        opens_with(target, q, defs, below) && taken_by(q, event);
                    assert(opens_with(p, q, defs, depth));
                }
                if some_take(p, event, defs, depth) {
                    let q = choose|q: PatternModel| #[trigger]
                        opens_with(p, q, defs, depth) && taken_by(q, event);
                    assert(opens_with(target, q, defs, below));
                }
            }
        },
        _ => {},
    }
}

/// A child can be first in each of the alternatives of a start just where some element
/// pattern that it comes to takes it.
proof fn lemma_each_first(
    p: PatternModel,
    values: Seq<PatternModel>,
    event: Event,
    defs: Defs,
    depth: nat,
)
    requires
        starts_with_elements(p, defs, depth),
        p == PatternModel::Choice(values),
    ensures
        forall|i: int|
            0 <= i < values.len() ==> (!(#[trigger] child_derivatives(
                values,
                Child::Element(event),
                defs,
                depth,
            )[i] is NotAllowed) <==> some_take(values[i], event, defs, depth)),
    decreases depth, values,
{
    let derived = child_derivatives(values, Child::Element(event), defs, depth);
    assert forall|i: int| 0 <= i < values.len() implies (!(#[trigger] derived[i] is NotAllowed)
        <==> some_take(values[i], event, defs, depth)) by {
        assert forall|q: PatternModel| #[trigger]
            opens_with(values[i], q, defs, depth) implies q is Element || q is NotAllowed
            || q is Choice || q is Ref by {
            assert(some_open_with(values, q, defs, depth));
            assert(opens_with(p, q, defs, depth));
        }
        lemma_first(values[i], event, defs, depth);
    }
}

/// No problem is found with a document exactly where some element pattern that the start of
/// the schema comes to, through choices and references, describes its root.
pub proof fn law_valid_documents_match_the_schema(
    root: RootModel,
    log: Feed,
    registry: RegistryModel,
    document: ElementModel,
)
    requires
        compiled(root, log) is Ok,
        compiled(root, log)->Ok_0.definitions.len() < MAX_DEPTH,
    ensures
        ({
            let schema = compiled(root, log)->Ok_0;
            document_errors(schema, registry, document).len() == 0 <==> exists|q: PatternModel|
                #[trigger] opens_with(
                    schema.start,
                    q,
                    schema.definitions,
                    MAX_DEPTH as nat,
                ) && describes(q, document, schema.definitions, registry)
        }),
{
    let schema = compiled(root, log)->Ok_0;
    let defs = schema.definitions;
    let depth = MAX_DEPTH as nat;
    let event = child_event(document, defs, registry)->Element_0;
    law_valid_documents_have_no_problems(schema, registry, document);
    assert forall|q: PatternModel| #[trigger]
        opens_with(schema.start, q, defs, depth) implies q is Element || q is NotAllowed
        || q is Choice || q is Ref by {
        law_schemas_start_with_elements(root, log, q, depth);
    }
    lemma_first(schema.start, event, defs, depth);
    assert forall|q: PatternModel| #[trigger]
        opens_with(schema.start, q, defs, depth) implies taken_by(q, event) == describes(
        q,
        document,
        defs,
        registry,
    ) by {}
}

} // verus!
