//! Where references come to an end, the depth to which they are followed does not matter.
use vstd::prelude::*;

use crate::algebra::{
    choice_of, group_of, interleave_of, lemma_without_members, without, without_identity,
};
use crate::datatypes::registry::{Bindings, RegistryModel};
use crate::derivative::{
    all_expect_text, all_nullable, all_structurally_empty, alternatives, attribute_derivative,
    attribute_derivatives, branch_at, child_derivative, child_derivatives, closed_position,
    closed_positions, contained, excluded,
    expects_text, is_nullable, list_accepts, next_expect_text, positions_derivative, prefix_empty,
    repetition_derivative, some_expect_text, some_nullable, some_structurally_empty,
    structurally_empty, text_derivative, text_derivatives, value_fits, Child, Container, Defs,
};
use crate::grammar::PatternModel;
use crate::string_map::lookup;
use crate::text::{tokens, Text};
use crate::validator::NameView;

verus! {

/// Whether the references of a pattern, what stands inside elements apart, come to an end
/// within a depth. A list and the exceptions of a datatype take a step each, as references
/// do.
pub open spec fn grounded(p: PatternModel, defs: Defs, depth: nat) -> bool
    decreases depth, p,
{
    match p {
        PatternModel::Ref(name) => depth > 0 && match lookup(defs, name) {
            Some(target) => grounded(target, defs, (depth - 1) as nat),
            None => true,
        },
        PatternModel::List(values) => depth > 0 && all_grounded(values, defs, (depth - 1) as nat),
        PatternModel::Data { datatype, datatype_library, params, except, context } => depth > 0
            && all_grounded(except, defs, (depth - 1) as nat),
        PatternModel::Attribute { name, body, context } => all_grounded(body, defs, depth),
        PatternModel::Group(values) => all_grounded(values, defs, depth),
        PatternModel::Interleave(values) => all_grounded(values, defs, depth),
        PatternModel::Choice(values) => all_grounded(values, defs, depth),
        PatternModel::OneOrMore(values) => all_grounded(values, defs, depth),
        _ => true,
    }
}

/// Whether the references of patterns come to an end within a depth.
pub open spec fn all_grounded(s: Seq<PatternModel>, defs: Defs, depth: nat) -> bool
    decreases depth, s,
{
    forall|i: int| 0 <= i < s.len() ==> grounded(#[trigger] s[i], defs, depth)
}

// ---------------------------------------------------------------------
// What stays grounded
// ---------------------------------------------------------------------

/// What is grounded within a depth is so within a greater one.
pub proof fn lemma_grounded_deeper(p: PatternModel, defs: Defs, depth: nat, more: nat)
    requires
        grounded(p, defs, depth),
        depth <= more,
    ensures
        grounded(p, defs, more),
    decreases depth, p,
{
    match p {
        PatternModel::Ref(name) => {
            match lookup(defs, name) {
                Some(target) => {
                    lemma_grounded_deeper(target, defs, (depth - 1) as nat, (more - 1) as nat);
                },
                None => {},
            }
        },
        PatternModel::List(values) => {
            lemma_all_grounded_deeper(values, defs, (depth - 1) as nat, (more - 1) as nat);
        },
        PatternModel::Data { datatype, datatype_library, params, except, context } => {
            lemma_all_grounded_deeper(except, defs, (depth - 1) as nat, (more - 1) as nat);
        },
        PatternModel::Attribute { name, body, context } => {
            lemma_all_grounded_deeper(body, defs, depth, more);
        },
        PatternModel::Group(values) => {
            lemma_all_grounded_deeper(values, defs, depth, more);
        },
        PatternModel::Interleave(values) => {
            lemma_all_grounded_deeper(values, defs, depth, more);
        },
        PatternModel::Choice(values) => {
            lemma_all_grounded_deeper(values, defs, depth, more);
        },
        PatternModel::OneOrMore(values) => {
            lemma_all_grounded_deeper(values, defs, depth, more);
        },
        _ => {},
    }
}

/// What are grounded within a depth are so within a greater one.
proof fn lemma_all_grounded_deeper(s: Seq<PatternModel>, defs: Defs, depth: nat, more: nat)
    requires
        all_grounded(s, defs, depth),
        depth <= more,
    ensures
        all_grounded(s, defs, more),
    decreases depth, s,
{
    assert forall|i: int| 0 <= i < s.len() implies grounded(#[trigger] s[i], defs, more) by {
        assert(grounded(s[i], defs, depth));
        lemma_grounded_deeper(s[i], defs, depth, more);
    }
}

/// Groups, interleaves and choices of grounded patterns amount to grounded ones.
pub proof fn lemma_algebra_grounded(s: Seq<PatternModel>, defs: Defs, depth: nat)
    requires
        all_grounded(s, defs, depth),
    ensures
        grounded(group_of(s), defs, depth),
        grounded(interleave_of(s), defs, depth),
        grounded(choice_of(s), defs, depth),
{
    let rest = without_identity(s);
    let chosen = without(s, PatternModel::NotAllowed);
    lemma_without_members(s, PatternModel::Empty);
    lemma_without_members(s, PatternModel::NotAllowed);
    assert forall|i: int| 0 <= i < rest.len() implies grounded(#[trigger] rest[i], defs, depth) by {
        assert(rest.contains(rest[i]));
        if s.len() > 1 {
            assert(rest[i] != PatternModel::Empty);
        }
        assert(s.contains(rest[i]));
        let j = choose|j: int| 0 <= j < s.len() && s[j] == rest[i];
        assert(grounded(s[j], defs, depth));
    }
    assert forall|i: int| 0 <= i < chosen.len() implies grounded(
        #[trigger] chosen[i],
        defs,
        depth,
    ) by {
        assert(chosen.contains(chosen[i]));
        assert(chosen[i] != PatternModel::NotAllowed);
        assert(s.contains(chosen[i]));
        let j = choose|j: int| 0 <= j < s.len() && s[j] == chosen[i];
        assert(grounded(s[j], defs, depth));
    }
    assert(all_grounded(rest, defs, depth));
    assert(all_grounded(chosen, defs, depth));
    assert(grounded(PatternModel::Group(rest), defs, depth));
    assert(grounded(PatternModel::Interleave(rest), defs, depth));
    assert(grounded(PatternModel::Choice(chosen), defs, depth));
}

/// What is left of a repetition is grounded where what is left of the first time is.
proof fn lemma_repetition_grounded(
    derived: PatternModel,
    whole: PatternModel,
    defs: Defs,
    depth: nat,
)
    requires
        grounded(derived, defs, depth),
        grounded(whole, defs, depth),
    ensures
        grounded(repetition_derivative(derived, whole), defs, depth),
{
    let again = seq![whole, PatternModel::Empty];
    assert(all_grounded(again, defs, depth));
    lemma_algebra_grounded(again, defs, depth);
    let both = seq![derived, choice_of(again)];
    assert(all_grounded(both, defs, depth));
    lemma_algebra_grounded(both, defs, depth);
}

// ---------------------------------------------------------------------
// What does not depend on the depth
// ---------------------------------------------------------------------

/// Whether no event satisfies a grounded pattern does not depend on the depth.
pub proof fn lemma_empty_steady(p: PatternModel, defs: Defs, depth: nat, more: nat)
    requires
        grounded(p, defs, depth),
        depth <= more,
    ensures
        structurally_empty(p, defs, depth) == structurally_empty(p, defs, more),
    decreases depth, p,
{
    match p {
        PatternModel::Ref(name) => {
            match lookup(defs, name) {
                Some(target) => {
                    lemma_empty_steady(target, defs, (depth - 1) as nat, (more - 1) as nat);
                },
                None => {},
            }
        },
        PatternModel::List(values) => {
            if values.len() > 0 {
                let below = (depth - 1) as nat;
                assert(all_grounded(values, defs, below));
                lemma_empty_steady(values[0], defs, below, depth);
                lemma_empty_steady(values[0], defs, below, more);
            }
        },
        PatternModel::OneOrMore(values) => {
            if values.len() > 0 {
                assert(all_grounded(values, defs, depth));
                lemma_empty_steady(values[0], defs, depth, more);
            }
        },
        PatternModel::Choice(values) => {
            lemma_all_empty_steady(values, defs, depth, more);
            if some_structurally_empty(values, defs, depth) {
                let i = choose|i: int|
                    0 <= i < values.len() && structurally_empty(#[trigger] values[i], defs, depth);
                assert(structurally_empty(values[i], defs, more));
            }
            if some_structurally_empty(values, defs, more) {
                let i = choose|i: int|
                    0 <= i < values.len() && structurally_empty(#[trigger] values[i], defs, more);
                assert(structurally_empty(values[i], defs, depth));
            }
        },
        PatternModel::Group(values) => {
            lemma_all_empty_steady(values, defs, depth, more);
            assert(all_structurally_empty(values, defs, depth) == all_structurally_empty(
                values,
                defs,
                more,
            ));
        },
        PatternModel::Interleave(values) => {
            lemma_all_empty_steady(values, defs, depth, more);
            assert(all_structurally_empty(values, defs, depth) == all_structurally_empty(
                values,
                defs,
                more,
            ));
        },
        _ => {},
    }
}

/// Whether no event satisfies each of grounded patterns does not depend on the depth.
proof fn lemma_all_empty_steady(s: Seq<PatternModel>, defs: Defs, depth: nat, more: nat)
    requires
        all_grounded(s, defs, depth),
        depth <= more,
    ensures
        forall|i: int|
            0 <= i < s.len() ==> structurally_empty(#[trigger] s[i], defs, depth)
                == structurally_empty(s[i], defs, more),
        forall|i: int|
            0 <= i <= s.len() ==> #[trigger] prefix_empty(s, i, defs, depth) == prefix_empty(
                s,
                i,
                defs,
                more,
            ),
    decreases depth, s,
{
    assert forall|i: int| 0 <= i < s.len() implies structurally_empty(#[trigger] s[i], defs, depth)
        == structurally_empty(s[i], defs, more) by {
        assert(grounded(s[i], defs, depth));
        lemma_empty_steady(s[i], defs, depth, more);
    }
}

/// Whether a grounded pattern wants text does not depend on the depth.
proof fn lemma_expects_steady(p: PatternModel, defs: Defs, depth: nat, more: nat)
    requires
        grounded(p, defs, depth),
        depth <= more,
    ensures
        expects_text(p, defs, depth) == expects_text(p, defs, more),
    decreases depth, p,
{
    match p {
        PatternModel::Ref(name) => {
            match lookup(defs, name) {
                Some(target) => {
                    lemma_expects_steady(target, defs, (depth - 1) as nat, (more - 1) as nat);
                },
                None => {},
            }
        },
        PatternModel::OneOrMore(values) => {
            if values.len() > 0 {
                assert(all_grounded(values, defs, depth));
                lemma_expects_steady(values[0], defs, depth, more);
            }
        },
        PatternModel::Choice(values) => {
            lemma_all_expects_steady(values, defs, depth, more);
            assert(all_expect_text(values, defs, depth) == all_expect_text(values, defs, more));
        },
        PatternModel::Interleave(values) => {
            lemma_all_expects_steady(values, defs, depth, more);
            if some_expect_text(values, defs, depth) {
                let i = choose|i: int|
                    0 <= i < values.len() && expects_text(#[trigger] values[i], defs, depth);
                assert(expects_text(values[i], defs, more));
            }
            if some_expect_text(values, defs, more) {
                let i = choose|i: int|
                    0 <= i < values.len() && expects_text(#[trigger] values[i], defs, more);
                assert(expects_text(values[i], defs, depth));
            }
        },
        PatternModel::Group(values) => {
            lemma_all_expects_steady(values, defs, depth, more);
            lemma_all_empty_steady(values, defs, depth, more);
            if next_expect_text(values, defs, depth) {
                let i = choose|i: int|
                    0 <= i < values.len() && expects_text(#[trigger] values[i], defs, depth)
                        && prefix_empty(values, i, defs, depth);
                assert(expects_text(values[i], defs, more));
                assert(next_expect_text(values, defs, more));
            }
            if next_expect_text(values, defs, more) {
                let i = choose|i: int|
                    0 <= i < values.len() && expects_text(#[trigger] values[i], defs, more)
                        && prefix_empty(values, i, defs, more);
                assert(expects_text(values[i], defs, depth));
                assert(prefix_empty(values, i, defs, depth));
                assert(next_expect_text(values, defs, depth));
            }
        },
        _ => {},
    }
}

/// Whether each of grounded patterns wants text does not depend on the depth.
proof fn lemma_all_expects_steady(s: Seq<PatternModel>, defs: Defs, depth: nat, more: nat)
    requires
        all_grounded(s, defs, depth),
        depth <= more,
    ensures
        forall|i: int|
            0 <= i < s.len() ==> expects_text(#[trigger] s[i], defs, depth) == expects_text(
                s[i],
                defs,
                more,
            ),
    decreases depth, s,
{
    assert forall|i: int| 0 <= i < s.len() implies expects_text(#[trigger] s[i], defs, depth)
        == expects_text(s[i], defs, more) by {
        assert(grounded(s[i], defs, depth));
        lemma_expects_steady(s[i], defs, depth, more);
    }
}

/// What is left of a grounded position that was passed over does not depend on the depth,
/// and is grounded.
proof fn lemma_closed_steady(p: PatternModel, defs: Defs, depth: nat, more: nat)
    requires
        grounded(p, defs, depth),
        depth <= more,
    ensures
        closed_position(p, defs, depth) == closed_position(p, defs, more),
        grounded(closed_position(p, defs, more), defs, depth),
    decreases depth, p,
{
    match p {
        PatternModel::Ref(name) => {
            match lookup(defs, name) {
                Some(target) => {
                    let below = (depth - 1) as nat;
                    lemma_closed_steady(target, defs, below, (more - 1) as nat);
                    lemma_grounded_deeper(closed_position(p, defs, more), defs, below, depth);
                },
                None => {},
            }
        },
        PatternModel::List(values) => {
            lemma_empty_steady(p, defs, depth, more);
        },
        PatternModel::OneOrMore(values) => {
            if values.len() > 0 {
                assert(all_grounded(values, defs, depth));
                lemma_closed_steady(values[0], defs, depth, more);
            }
        },
        PatternModel::Choice(values) => {
            lemma_all_closed_steady(values, defs, depth, more);
            lemma_algebra_grounded(closed_positions(values, defs, more), defs, depth);
        },
        PatternModel::Group(values) => {
            lemma_all_closed_steady(values, defs, depth, more);
            lemma_algebra_grounded(closed_positions(values, defs, more), defs, depth);
        },
        PatternModel::Interleave(values) => {
            lemma_all_closed_steady(values, defs, depth, more);
            lemma_algebra_grounded(closed_positions(values, defs, more), defs, depth);
        },
        _ => {},
    }
}

/// What is left of grounded positions that were passed over does not depend on the depth,
/// and is grounded.
proof fn lemma_all_closed_steady(s: Seq<PatternModel>, defs: Defs, depth: nat, more: nat)
    requires
        all_grounded(s, defs, depth),
        depth <= more,
    ensures
        closed_positions(s, defs, depth) == closed_positions(s, defs, more),
        all_grounded(closed_positions(s, defs, more), defs, depth),
    decreases depth, s,
{
    let a = closed_positions(s, defs, depth);
    let b = closed_positions(s, defs, more);
    assert forall|i: int| 0 <= i < s.len() implies #[trigger] a[i] == b[i] && grounded(
        b[i],
        defs,
        depth,
    ) by {
        assert(grounded(s[i], defs, depth));
        lemma_closed_steady(s[i], defs, depth, more);
    }
    assert(a =~= b);
    assert forall|i: int| 0 <= i < b.len() implies grounded(#[trigger] b[i], defs, depth) by {
        assert(a[i] == b[i]);
    }
}

/// The alternatives of matching at grounded operands do not depend on the depth, and are
/// grounded.
proof fn lemma_alternatives_steady(
    values: Seq<PatternModel>,
    derived: Seq<PatternModel>,
    sequential: bool,
    container: Container,
    defs: Defs,
    depth: nat,
    more: nat,
    n: nat,
)
    requires
        n <= values.len(),
        values.len() == derived.len(),
        all_grounded(values, defs, depth),
        all_grounded(derived, defs, depth),
        depth <= more,
    ensures
        alternatives(values, derived, sequential, container, defs, depth, n) == alternatives(
            values,
            derived,
            sequential,
            container,
            defs,
            more,
            n,
        ),
        all_grounded(
            alternatives(values, derived, sequential, container, defs, more, n),
            defs,
            depth,
        ),
    decreases n,
{
    if n > 0 {
        let m = (n - 1) as nat;
        lemma_alternatives_steady(values, derived, sequential, container, defs, depth, more, m);
        lemma_all_empty_steady(values, defs, depth, more);
        assert(prefix_empty(values, m as int, defs, depth) == prefix_empty(
            values,
            m as int,
            defs,
            more,
        ));
        let a = branch_at(values, derived, sequential, m as int, defs, depth);
        let b = branch_at(values, derived, sequential, m as int, defs, more);
        assert forall|j: int| 0 <= j < a.len() implies #[trigger] a[j] == b[j] && grounded(
            b[j],
            defs,
            depth,
        ) by {
            assert(grounded(values[j], defs, depth));
            assert(grounded(derived[j], defs, depth));
            lemma_closed_steady(values[j], defs, depth, more);
        }
        assert(a =~= b);
        assert forall|j: int| 0 <= j < b.len() implies grounded(#[trigger] b[j], defs, depth) by {
            assert(a[j] == b[j]);
        }
        lemma_algebra_grounded(b, defs, depth);
        let before = alternatives(values, derived, sequential, container, defs, more, m);
        let s = alternatives(values, derived, sequential, container, defs, more, n);
        assert forall|j: int| 0 <= j < s.len() implies grounded(#[trigger] s[j], defs, depth) by {
            if j < before.len() {
                assert(grounded(before[j], defs, depth));
            } else {
                assert(s[j] == contained(container, b));
            }
        }
    }
}

/// What is left of grounded operands does not depend on the depth, and is grounded.
proof fn lemma_positions_steady(
    values: Seq<PatternModel>,
    derived: Seq<PatternModel>,
    sequential: bool,
    container: Container,
    defs: Defs,
    depth: nat,
    more: nat,
)
    requires
        values.len() == derived.len(),
        all_grounded(values, defs, depth),
        all_grounded(derived, defs, depth),
        depth <= more,
    ensures
        positions_derivative(values, derived, sequential, container, defs, depth)
            == positions_derivative(values, derived, sequential, container, defs, more),
        grounded(
            positions_derivative(values, derived, sequential, container, defs, more),
            defs,
            depth,
        ),
{
    let n = values.len();
    lemma_alternatives_steady(values, derived, sequential, container, defs, depth, more, n);
    lemma_algebra_grounded(
        alternatives(values, derived, sequential, container, defs, more, n),
        defs,
        depth,
    );
}

/// Whether a grounded pattern accepts that nothing more follows does not depend on the
/// depth.
pub proof fn lemma_nullable_steady(
    p: PatternModel,
    defs: Defs,
    registry: RegistryModel,
    depth: nat,
    more: nat,
)
    requires
        grounded(p, defs, depth),
        depth <= more,
    ensures
        is_nullable(p, defs, registry, depth) == is_nullable(p, defs, registry, more),
    decreases depth, 0nat, p,
{
    match p {
        PatternModel::Ref(name) => {
            match lookup(defs, name) {
                Some(target) => {
                    lemma_nullable_steady(
                        target,
                        defs,
                        registry,
                        (depth - 1) as nat,
                        (more - 1) as nat,
                    );
                },
                None => {},
            }
        },
        PatternModel::Data { datatype, datatype_library, params, except, context } => {
            lemma_excluded_steady(
                except,
                Seq::empty(),
                defs,
                registry,
                Seq::empty(),
                depth,
                more,
            );
        },
        PatternModel::List(values) => {
            if values.len() > 0 {
                let below = (depth - 1) as nat;
                assert(all_grounded(values, defs, below));
                lemma_empty_steady(values[0], defs, below, depth);
                lemma_empty_steady(values[0], defs, below, more);
            }
        },
        PatternModel::OneOrMore(values) => {
            if values.len() > 0 {
                assert(all_grounded(values, defs, depth));
                lemma_nullable_steady(values[0], defs, registry, depth, more);
            }
        },
        PatternModel::Choice(values) => {
            lemma_all_nullable_steady(values, defs, registry, depth, more);
            if some_nullable(values, defs, registry, depth) {
                let i = choose|i: int|
                    0 <= i < values.len() && is_nullable(#[trigger] values[i], defs, registry, depth);
                assert(is_nullable(values[i], defs, registry, more));
            }
            if some_nullable(values, defs, registry, more) {
                let i = choose|i: int|
                    0 <= i < values.len() && is_nullable(#[trigger] values[i], defs, registry, more);
                assert(is_nullable(values[i], defs, registry, depth));
            }
        },
        PatternModel::Group(values) => {
            lemma_all_nullable_steady(values, defs, registry, depth, more);
            assert(all_nullable(values, defs, registry, depth) == all_nullable(
                values,
                defs,
                registry,
                more,
            ));
        },
        PatternModel::Interleave(values) => {
            lemma_all_nullable_steady(values, defs, registry, depth, more);
            assert(all_nullable(values, defs, registry, depth) == all_nullable(
                values,
                defs,
                registry,
                more,
            ));
        },
        _ => {},
    }
}

/// Whether each of grounded patterns accepts that nothing more follows does not depend on
/// the depth.
proof fn lemma_all_nullable_steady(
    s: Seq<PatternModel>,
    defs: Defs,
    registry: RegistryModel,
    depth: nat,
    more: nat,
)
    requires
        all_grounded(s, defs, depth),
        depth <= more,
    ensures
        forall|i: int|
            0 <= i < s.len() ==> is_nullable(#[trigger] s[i], defs, registry, depth)
                == is_nullable(s[i], defs, registry, more),
    decreases depth, 0nat, s,
{
    assert forall|i: int| 0 <= i < s.len() implies is_nullable(
        #[trigger] s[i],
        defs,
        registry,
        depth,
    ) == is_nullable(s[i], defs, registry, more) by {
        assert(grounded(s[i], defs, depth));
        lemma_nullable_steady(s[i], defs, registry, depth, more);
    }
}

/// Whether some grounded exception matches a text does not depend on the depth.
proof fn lemma_excluded_steady(
    except: Seq<PatternModel>,
    text: Text,
    defs: Defs,
    registry: RegistryModel,
    context: Bindings,
    depth: nat,
    more: nat,
)
    requires
        depth > 0,
        all_grounded(except, defs, (depth - 1) as nat),
        depth <= more,
    ensures
        excluded(except, text, defs, registry, context, depth) == excluded(
            except,
            text,
            defs,
            registry,
            context,
            more,
        ),
    decreases depth, 0nat, except,
{
    let a = (depth - 1) as nat;
    let b = (more - 1) as nat;
    assert forall|i: int| 0 <= i < except.len() implies is_nullable(
        text_derivative(#[trigger] except[i], text, defs, registry, context, a),
        defs,
        registry,
        a,
    ) == is_nullable(
        text_derivative(except[i], text, defs, registry, context, b),
        defs,
        registry,
        b,
    ) by {
        assert(grounded(except[i], defs, a));
        lemma_text_steady(except[i], text, defs, registry, context, a, b);
        lemma_nullable_steady(
            text_derivative(except[i], text, defs, registry, context, b),
            defs,
            registry,
            a,
            b,
        );
    }
    if excluded(except, text, defs, registry, context, depth) {
        let i = choose|i: int|
            0 <= i < except.len() && is_nullable(
                text_derivative(#[trigger] except[i], text, defs, registry, context, a),
                defs,
                registry,
                a,
            );
        assert(is_nullable(
            text_derivative(except[i], text, defs, registry, context, b),
            defs,
            registry,
            b,
        ));
    }
    if excluded(except, text, defs, registry, context, more) {
        let i = choose|i: int|
            0 <= i < except.len() && is_nullable(
                text_derivative(#[trigger] except[i], text, defs, registry, context, b),
                defs,
                registry,
                b,
            );
        assert(is_nullable(
            text_derivative(except[i], text, defs, registry, context, a),
            defs,
            registry,
            a,
        ));
    }
}

/// What is left of a grounded pattern after text does not depend on the depth, and is
/// grounded.
pub proof fn lemma_text_steady(
    p: PatternModel,
    text: Text,
    defs: Defs,
    registry: RegistryModel,
    context: Bindings,
    depth: nat,
    more: nat,
)
    requires
        grounded(p, defs, depth),
        depth <= more,
    ensures
        text_derivative(p, text, defs, registry, context, depth) == text_derivative(
            p,
            text,
            defs,
            registry,
            context,
            more,
        ),
        grounded(text_derivative(p, text, defs, registry, context, more), defs, depth),
    decreases depth, 0nat, p,
{
    match p {
        PatternModel::Ref(name) => {
            match lookup(defs, name) {
                Some(target) => {
                    let below = (depth - 1) as nat;
                    lemma_text_steady(
                        target,
                        text,
                        defs,
                        registry,
                        context,
                        below,
                        (more - 1) as nat,
                    );
                    lemma_grounded_deeper(
                        text_derivative(p, text, defs, registry, context, more),
                        defs,
                        below,
                        depth,
                    );
                },
                None => {},
            }
        },
        PatternModel::Data { datatype, datatype_library, params, except, context: c } => {
            lemma_excluded_steady(except, text, defs, registry, context, depth, more);
        },
        PatternModel::List(values) => {
            if values.len() > 0 {
                let below = (depth - 1) as nat;
                assert(all_grounded(values, defs, below));
                lemma_list_steady(
                    values[0],
                    tokens(text),
                    defs,
                    registry,
                    context,
                    below,
                    (more - 1) as nat,
                );
            }
        },
        PatternModel::Group(values) => {
            let derived = text_derivatives(values, text, defs, registry, context, more);
            lemma_all_text_steady(values, text, defs, registry, context, depth, more);
            lemma_positions_steady(values, derived, true, Container::Group, defs, depth, more);
        },
        PatternModel::Interleave(values) => {
            let derived = text_derivatives(values, text, defs, registry, context, more);
            lemma_all_text_steady(values, text, defs, registry, context, depth, more);
            lemma_positions_steady(
                values,
                derived,
                false,
                Container::Interleave,
                defs,
                depth,
                more,
            );
        },
        PatternModel::Choice(values) => {
            lemma_all_text_steady(values, text, defs, registry, context, depth, more);
            lemma_algebra_grounded(
                text_derivatives(values, text, defs, registry, context, more),
                defs,
                depth,
            );
        },
        PatternModel::OneOrMore(values) => {
            if values.len() > 0 {
                assert(all_grounded(values, defs, depth));
                lemma_text_steady(values[0], text, defs, registry, context, depth, more);
                lemma_repetition_grounded(
                    text_derivative(values[0], text, defs, registry, context, more),
                    p,
                    defs,
                    depth,
                );
            }
        },
        _ => {},
    }
}

/// What is left of grounded patterns after text does not depend on the depth, and is
/// grounded.
proof fn lemma_all_text_steady(
    s: Seq<PatternModel>,
    text: Text,
    defs: Defs,
    registry: RegistryModel,
    context: Bindings,
    depth: nat,
    more: nat,
)
    requires
        all_grounded(s, defs, depth),
        depth <= more,
    ensures
        text_derivatives(s, text, defs, registry, context, depth) == text_derivatives(
            s,
            text,
            defs,
            registry,
            context,
            more,
        ),
        all_grounded(text_derivatives(s, text, defs, registry, context, more), defs, depth),
    decreases depth, 0nat, s,
{
    let a = text_derivatives(s, text, defs, registry, context, depth);
    let b = text_derivatives(s, text, defs, registry, context, more);
    assert forall|i: int| 0 <= i < s.len() implies #[trigger] a[i] == b[i] && grounded(
        b[i],
        defs,
        depth,
    ) by {
        assert(grounded(s[i], defs, depth));
        lemma_text_steady(s[i], text, defs, registry, context, depth, more);
    }
    assert(a =~= b);
    assert forall|i: int| 0 <= i < b.len() implies grounded(#[trigger] b[i], defs, depth) by {
        assert(a[i] == b[i]);
    }
}

/// Whether a grounded pattern matches a sequence of tokens does not depend on the depth.
proof fn lemma_list_steady(
    p: PatternModel,
    parts: Seq<Text>,
    defs: Defs,
    registry: RegistryModel,
    context: Bindings,
    depth: nat,
    more: nat,
)
    requires
        grounded(p, defs, depth),
        depth <= more,
    ensures
        list_accepts(p, parts, defs, registry, context, depth) == list_accepts(
            p,
            parts,
            defs,
            registry,
            context,
            more,
        ),
    decreases depth, 1 + parts.len(), p,
{
    if parts.len() == 0 {
        lemma_empty_steady(p, defs, depth, more);
    } else {
        lemma_text_steady(p, parts[0], defs, registry, context, depth, more);
        lemma_list_steady(
            text_derivative(p, parts[0], defs, registry, context, more),
            parts.drop_first(),
            defs,
            registry,
            context,
            depth,
            more,
        );
    }
}

/// Whether a value matches a grounded pattern does not depend on the depth.
pub proof fn lemma_value_steady(
    p: PatternModel,
    value: Text,
    defs: Defs,
    registry: RegistryModel,
    context: Bindings,
    depth: nat,
    more: nat,
)
    requires
        grounded(p, defs, depth),
        depth <= more,
    ensures
        value_fits(p, value, defs, registry, context, depth) == value_fits(
            p,
            value,
            defs,
            registry,
            context,
            more,
        ),
{
    lemma_text_steady(p, value, defs, registry, context, depth, more);
    lemma_expects_steady(p, defs, depth, more);
    lemma_empty_steady(
        text_derivative(p, value, defs, registry, context, more),
        defs,
        depth,
        more,
    );
}

/// What is left of a grounded pattern after an attribute is grounded.
pub proof fn lemma_attribute_grounded(
    p: PatternModel,
    name: NameView,
    value: Text,
    defs: Defs,
    registry: RegistryModel,
    context: Bindings,
    depth: nat,
)
    requires
        grounded(p, defs, depth),
    ensures
        grounded(
            attribute_derivative(p, name, value, defs, registry, context, depth),
            defs,
            depth,
        ),
    decreases depth, p,
{
    match p {
        PatternModel::Ref(target_name) => {
            match lookup(defs, target_name) {
                Some(target) => {
                    let below = (depth - 1) as nat;
                    lemma_attribute_grounded(
                        target,
                        name,
                        value,
                        defs,
                        registry,
                        context,
                        below,
                    );
                    lemma_grounded_deeper(
                        attribute_derivative(p, name, value, defs, registry, context, depth),
                        defs,
                        below,
                        depth,
                    );
                },
                None => {},
            }
        },
        PatternModel::Group(values) => {
            lemma_all_attribute_grounded(values, name, value, defs, registry, context, depth);
            lemma_positions_steady(
                values,
                attribute_derivatives(values, name, value, defs, registry, context, depth),
                false,
                Container::Group,
                defs,
                depth,
                depth,
            );
        },
        PatternModel::Interleave(values) => {
            lemma_all_attribute_grounded(values, name, value, defs, registry, context, depth);
            lemma_positions_steady(
                values,
                attribute_derivatives(values, name, value, defs, registry, context, depth),
                false,
                Container::Interleave,
                defs,
                depth,
                depth,
            );
        },
        PatternModel::Choice(values) => {
            lemma_all_attribute_grounded(values, name, value, defs, registry, context, depth);
            lemma_algebra_grounded(
                attribute_derivatives(values, name, value, defs, registry, context, depth),
                defs,
                depth,
            );
        },
        PatternModel::OneOrMore(values) => {
            if values.len() > 0 {
                assert(all_grounded(values, defs, depth));
                lemma_attribute_grounded(values[0], name, value, defs, registry, context, depth);
                lemma_repetition_grounded(
                    attribute_derivative(values[0], name, value, defs, registry, context, depth),
                    p,
                    defs,
                    depth,
                );
            }
        },
        _ => {},
    }
}

/// What is left of grounded patterns after an attribute is grounded.
pub proof fn lemma_all_attribute_grounded(
    s: Seq<PatternModel>,
    name: NameView,
    value: Text,
    defs: Defs,
    registry: RegistryModel,
    context: Bindings,
    depth: nat,
)
    requires
        all_grounded(s, defs, depth),
    ensures
        all_grounded(
            attribute_derivatives(s, name, value, defs, registry, context, depth),
            defs,
            depth,
        ),
    decreases depth, s,
{
    let out = attribute_derivatives(s, name, value, defs, registry, context, depth);
    assert forall|i: int| 0 <= i < out.len() implies grounded(#[trigger] out[i], defs, depth) by {
        assert(grounded(s[i], defs, depth));
        lemma_attribute_grounded(s[i], name, value, defs, registry, context, depth);
    }
}

/// What is left of a grounded pattern after a child is grounded.
pub proof fn lemma_child_grounded(p: PatternModel, child: Child, defs: Defs, depth: nat)
    requires
        grounded(p, defs, depth),
    ensures
        grounded(child_derivative(p, child, defs, depth), defs, depth),
    decreases depth, p,
{
    match p {
        PatternModel::Ref(name) => {
            match lookup(defs, name) {
                Some(target) => {
                    let below = (depth - 1) as nat;
                    lemma_child_grounded(target, child, defs, below);
                    lemma_grounded_deeper(
                        child_derivative(p, child, defs, depth),
                        defs,
                        below,
                        depth,
                    );
                },
                None => {},
            }
        },
        PatternModel::Group(values) => {
            lemma_all_child_grounded(values, child, defs, depth);
            lemma_positions_steady(
                values,
                child_derivatives(values, child, defs, depth),
                true,
                Container::Group,
                defs,
                depth,
                depth,
            );
        },
        PatternModel::Interleave(values) => {
            lemma_all_child_grounded(values, child, defs, depth);
            lemma_positions_steady(
                values,
                child_derivatives(values, child, defs, depth),
                false,
                Container::Interleave,
                defs,
                depth,
                depth,
            );
        },
        PatternModel::Choice(values) => {
            lemma_all_child_grounded(values, child, defs, depth);
            lemma_algebra_grounded(child_derivatives(values, child, defs, depth), defs, depth);
        },
        PatternModel::OneOrMore(values) => {
            if values.len() > 0 {
                assert(all_grounded(values, defs, depth));
                lemma_child_grounded(values[0], child, defs, depth);
                lemma_repetition_grounded(
                    child_derivative(values[0], child, defs, depth),
                    p,
                    defs,
                    depth,
                );
            }
        },
        _ => {},
    }
}

/// What is left of grounded patterns after a child is grounded.
proof fn lemma_all_child_grounded(s: Seq<PatternModel>, child: Child, defs: Defs, depth: nat)
    requires
        all_grounded(s, defs, depth),
    ensures
        all_grounded(child_derivatives(s, child, defs, depth), defs, depth),
    decreases depth, s,
{
    let out = child_derivatives(s, child, defs, depth);
    assert forall|i: int| 0 <= i < out.len() implies grounded(#[trigger] out[i], defs, depth) by {
        assert(grounded(s[i], defs, depth));
        lemma_child_grounded(s[i], child, defs, depth);
    }
}

} // verus!
