//! Data that stands apart: beside it in a group or an interleave there is nothing that takes
//! children, unless it can be left out altogether.
use vstd::prelude::*;

use crate::algebra::{
    choice_of, group_of, interleave_of, lemma_without_members, without, without_identity,
};
use crate::compose::operands;
use crate::datatypes::registry::{Bindings, RegistryModel};
use crate::derivative::{
    alternatives, attribute_derivative, attribute_derivatives, branch_at, child_derivative,
    child_derivatives, closed_position, closed_positions, contained, repetition_derivative, Child,
    Container, Defs,
};
use crate::expectation::lemma_allowed;
use crate::grammar::PatternModel;
use crate::shapes::{
    all_attribute_free, all_attributes_apart, all_shaped, all_shaped_within, attribute_free,
    attributes_apart, childless, lemma_attribute_shaped, lemma_operands, lemma_shallower,
    lemma_target, shaped, shaped_within, Shape,
};
use crate::string_map::{has_key, lookup};
use crate::text::Text;
use crate::validator::NameView;

verus! {

// ---------------------------------------------------------------------
// What needs no data
// ---------------------------------------------------------------------

/// Whether a content model is satisfied by nothing only where it is so without data: it holds
/// no data but in a repetition beside which there is nothing as an alternative, as far as
/// references are followed to the given depth.
pub open spec fn settled_within(p: PatternModel, defs: Defs, depth: nat) -> bool
    decreases depth, p,
{
    match p {
        PatternModel::Data { datatype, datatype_library, params, except, context } => false,
        PatternModel::Value { value, datatype, datatype_library, namespace, context } => false,
        PatternModel::Group(values) => all_settled_within(values, defs, depth),
        PatternModel::Interleave(values) => all_settled_within(values, defs, depth),
        PatternModel::OneOrMore(values) => all_settled_within(values, defs, depth),
        PatternModel::Choice(values) => choices_settled_within(values, defs, depth),
        PatternModel::Ref(name) => depth > 0 ==> match lookup(defs, name) {
            Some(target) => settled_within(target, defs, (depth - 1) as nat),
            None => true,
        },
        _ => true,
    }
}

/// Whether each content model is satisfied by nothing only where it is so without data.
pub open spec fn all_settled_within(s: Seq<PatternModel>, defs: Defs, depth: nat) -> bool
    decreases depth, s,
{
    forall|i: int| 0 <= i < s.len() ==> settled_within(#[trigger] s[i], defs, depth)
}

/// Whether each alternative is satisfied by nothing only where it is so without data, or is a
/// repetition beside which there is nothing.
pub open spec fn choices_settled_within(s: Seq<PatternModel>, defs: Defs, depth: nat) -> bool
    decreases depth, s,
{
    forall|i: int|
        0 <= i < s.len() ==> s[i] is OneOrMore && s.contains(PatternModel::Empty)
            || settled_within(#[trigger] s[i], defs, depth)
}

/// Whether a content model is satisfied by nothing only where it is so without data, however
/// far references are followed.
pub open spec fn settled(p: PatternModel, defs: Defs) -> bool {
    forall|depth: nat| #[trigger] settled_within(p, defs, depth)
}

/// Whether each content model is satisfied by nothing only where it is so without data,
/// however far references are followed.
spec fn all_settled(s: Seq<PatternModel>, defs: Defs) -> bool {
    forall|i: int| 0 <= i < s.len() ==> settled(#[trigger] s[i], defs)
}

/// What is settled within a depth is so within a smaller one.
proof fn lemma_settled_shallower(p: PatternModel, defs: Defs, depth: nat, more: nat)
    requires
        settled_within(p, defs, more),
        depth <= more,
    ensures
        settled_within(p, defs, depth),
    decreases more, p,
{
    match p {
        PatternModel::Group(values) => {
            lemma_all_settled_shallower(values, defs, depth, more);
        },
        PatternModel::Interleave(values) => {
            lemma_all_settled_shallower(values, defs, depth, more);
        },
        PatternModel::OneOrMore(values) => {
            lemma_all_settled_shallower(values, defs, depth, more);
        },
        PatternModel::Choice(values) => {
            lemma_choices_settled_shallower(values, defs, depth, more);
        },
        PatternModel::Ref(name) => {
            if depth > 0 && lookup(defs, name) is Some {
                lemma_settled_shallower(
                    lookup(defs, name)->0,
                    defs,
                    (depth - 1) as nat,
                    (more - 1) as nat,
                );
            }
        },
        _ => {},
    }
}

/// What is settled within a depth, each of patterns, is so within a smaller one.
proof fn lemma_all_settled_shallower(s: Seq<PatternModel>, defs: Defs, depth: nat, more: nat)
    requires
        all_settled_within(s, defs, more),
        depth <= more,
    ensures
        all_settled_within(s, defs, depth),
    decreases more, s,
{
    assert forall|i: int| 0 <= i < s.len() implies settled_within(#[trigger] s[i], defs, depth) by {
        assert(settled_within(s[i], defs, more));
        lemma_settled_shallower(s[i], defs, depth, more);
    }
}

/// Alternatives that are settled within a depth are so within a smaller one.
proof fn lemma_choices_settled_shallower(s: Seq<PatternModel>, defs: Defs, depth: nat, more: nat)
    requires
        choices_settled_within(s, defs, more),
        depth <= more,
    ensures
        choices_settled_within(s, defs, depth),
    decreases more, s,
{
    assert forall|i: int| 0 <= i < s.len() implies s[i] is OneOrMore && s.contains(
        PatternModel::Empty,
    ) || settled_within(#[trigger] s[i], defs, depth) by {
        if !(s[i] is OneOrMore && s.contains(PatternModel::Empty)) {
            assert(settled_within(s[i], defs, more));
            lemma_settled_shallower(s[i], defs, depth, more);
        }
    }
}

/// The operands of what is settled.
proof fn lemma_settled_operands(p: PatternModel, defs: Defs)
    requires
        settled(p, defs),
    ensures
        p is Group || p is Interleave || p is OneOrMore ==> all_settled(operands(p)->0, defs),
        p is Choice ==> forall|i: int|
            0 <= i < operands(p)->0.len() ==> operands(p)->0[i] is OneOrMore
                && operands(p)->0.contains(PatternModel::Empty) || settled(
                #[trigger] operands(p)->0[i],
                defs,
            ),
{
    let s = operands(p)->0;
    if p is Group || p is Interleave || p is OneOrMore {
        assert forall|i: int| 0 <= i < s.len() implies settled(#[trigger] s[i], defs) by {
            assert forall|depth: nat| #[trigger] settled_within(s[i], defs, depth) by {
                assert(settled_within(p, defs, depth));
                assert(all_settled_within(s, defs, depth));
            }
        }
    }
    if p is Choice {
        assert forall|i: int| 0 <= i < s.len() implies s[i] is OneOrMore && s.contains(
            PatternModel::Empty,
        ) || settled(#[trigger] s[i], defs) by {
            if !(s[i] is OneOrMore && s.contains(PatternModel::Empty)) {
                assert forall|depth: nat| #[trigger] settled_within(s[i], defs, depth) by {
                    assert(settled_within(p, defs, depth));
                    assert(choices_settled_within(s, defs, depth));
                }
            }
        }
    }
}

/// What a settled reference refers to is settled.
proof fn lemma_settled_target(name: Text, defs: Defs)
    requires
        settled(PatternModel::Ref(name), defs),
        has_key(defs, name),
    ensures
        settled(lookup(defs, name)->0, defs),
{
    assert forall|depth: nat| #[trigger] settled_within(lookup(defs, name)->0, defs, depth) by {
        assert(settled_within(PatternModel::Ref(name), defs, depth + 1));
    }
}

/// Groups, interleaves and choices of what is settled amount to what is.
proof fn lemma_algebra_settled(s: Seq<PatternModel>, defs: Defs)
    requires
        all_settled(s, defs),
    ensures
        settled(group_of(s), defs),
        settled(interleave_of(s), defs),
        settled(choice_of(s), defs),
{
    let rest = without_identity(s);
    let chosen = without(s, PatternModel::NotAllowed);
    lemma_without_members(s, PatternModel::Empty);
    lemma_without_members(s, PatternModel::NotAllowed);
    assert forall|i: int| 0 <= i < rest.len() implies settled(#[trigger] rest[i], defs) by {
        assert(rest.contains(rest[i]));
        if s.len() > 1 {
            assert(rest[i] != PatternModel::Empty);
        }
        assert(s.contains(rest[i]));
        let j = choose|j: int| 0 <= j < s.len() && s[j] == rest[i];
        assert(settled(s[j], defs));
    }
    assert forall|i: int| 0 <= i < chosen.len() implies settled(#[trigger] chosen[i], defs) by {
        assert(chosen.contains(chosen[i]));
        assert(chosen[i] != PatternModel::NotAllowed);
        assert(s.contains(chosen[i]));
        let j = choose|j: int| 0 <= j < s.len() && s[j] == chosen[i];
        assert(settled(s[j], defs));
    }
    assert forall|depth: nat| #[trigger]
        settled_within(PatternModel::Group(rest), defs, depth) by {
        assert(all_settled_within(rest, defs, depth)) by {
            assert forall|i: int| 0 <= i < rest.len() implies settled_within(
                #[trigger] rest[i],
                defs,
                depth,
            ) by {
                assert(settled(rest[i], defs));
            }
        }
    }
    assert forall|depth: nat| #[trigger]
        settled_within(PatternModel::Interleave(rest), defs, depth) by {
        assert(settled_within(PatternModel::Group(rest), defs, depth));
        assert(all_settled_within(rest, defs, depth));
    }
    assert forall|depth: nat| #[trigger]
        settled_within(PatternModel::Choice(chosen), defs, depth) by {
        assert(choices_settled_within(chosen, defs, depth)) by {
            assert forall|i: int| 0 <= i < chosen.len() implies settled_within(
                #[trigger] chosen[i],
                defs,
                depth,
            ) by {
                assert(settled(chosen[i], defs));
            }
        }
    }
    assert(settled(PatternModel::Empty, defs));
    assert(settled(PatternModel::NotAllowed, defs));
}

/// A repetition or nothing is settled, and so is what goes before it where that is.
proof fn lemma_repetition_settled(derived: PatternModel, whole: PatternModel, defs: Defs)
    requires
        settled(derived, defs),
        whole is OneOrMore,
    ensures
        settled(choice_of(seq![whole, PatternModel::Empty]), defs),
        settled(repetition_derivative(derived, whole), defs),
{
    let again = seq![whole, PatternModel::Empty];
    lemma_again(whole);
    assert forall|depth: nat| #[trigger] settled_within(choice_of(again), defs, depth) by {
        assert(again[1] == PatternModel::Empty);
        assert(again.contains(PatternModel::Empty));
        assert(choices_settled_within(again, defs, depth));
    }
    let both = seq![derived, choice_of(again)];
    assert(all_settled(both, defs));
    lemma_algebra_settled(both, defs);
}

/// A repetition or nothing is a choice of the two.
proof fn lemma_again(whole: PatternModel)
    requires
        whole is OneOrMore,
    ensures
        choice_of(seq![whole, PatternModel::Empty]) == PatternModel::Choice(
            seq![whole, PatternModel::Empty],
        ),
{
    let again = seq![whole, PatternModel::Empty];
    let front = again.drop_last();
    assert(front.drop_last() =~= Seq::<PatternModel>::empty());
    assert(front.last() == whole);
    assert(without(front.drop_last(), PatternModel::NotAllowed) =~= Seq::<PatternModel>::empty());
    assert(without(front, PatternModel::NotAllowed) =~= seq![whole]);
    assert(again.last() == PatternModel::Empty);
    assert(without(again, PatternModel::NotAllowed) =~= again);
}

/// What is left of a position that was passed over is settled.
proof fn lemma_closed_settled(p: PatternModel, defs: Defs, depth: nat)
    ensures
        settled(closed_position(p, defs, depth), defs),
        data_apart(closed_position(p, defs, depth), defs),
    decreases depth, p,
{
    let q = closed_position(p, defs, depth);
    assert(settled(PatternModel::Empty, defs));
    assert(settled(PatternModel::NotAllowed, defs));
    assert(data_apart(PatternModel::Empty, defs));
    assert(data_apart(PatternModel::NotAllowed, defs));
    match p {
        PatternModel::Attribute { name, body, context } => {
            assert(settled(q, defs));
            assert(data_apart(q, defs));
        },
        PatternModel::Group(values) => {
            lemma_closed_all_settled(values, defs, depth);
            lemma_algebra_settled(closed_positions(values, defs, depth), defs);
            lemma_settled_row(closed_positions(values, defs, depth), defs);
            lemma_algebra_apart(closed_positions(values, defs, depth), defs);
        },
        PatternModel::Interleave(values) => {
            lemma_closed_all_settled(values, defs, depth);
            lemma_algebra_settled(closed_positions(values, defs, depth), defs);
            lemma_settled_row(closed_positions(values, defs, depth), defs);
            lemma_algebra_apart(closed_positions(values, defs, depth), defs);
        },
        PatternModel::Choice(values) => {
            lemma_closed_all_settled(values, defs, depth);
            lemma_algebra_settled(closed_positions(values, defs, depth), defs);
            lemma_algebra_apart(closed_positions(values, defs, depth), defs);
        },
        PatternModel::OneOrMore(values) => {
            if values.len() > 0 {
                lemma_closed_settled(values[0], defs, depth);
            }
        },
        PatternModel::Ref(name) => {
            if depth > 0 && has_key(defs, name) {
                lemma_closed_settled(lookup(defs, name)->0, defs, (depth - 1) as nat);
            }
        },
        _ => {},
    }
}

/// What is left of positions that were passed over is settled.
proof fn lemma_closed_all_settled(s: Seq<PatternModel>, defs: Defs, depth: nat)
    ensures
        all_settled(closed_positions(s, defs, depth), defs),
        all_data_apart(closed_positions(s, defs, depth), defs),
    decreases depth, s,
{
    let out = closed_positions(s, defs, depth);
    assert forall|i: int| 0 <= i < out.len() implies settled(#[trigger] out[i], defs)
        && data_apart(out[i], defs) by {
        lemma_closed_settled(s[i], defs, depth);
    }
}

// ---------------------------------------------------------------------
// Data that stands apart
// ---------------------------------------------------------------------

/// Whether of any two patterns the one is satisfied by nothing only where it is so without
/// data, or the other takes no children, as far as references are followed to the given
/// depth.
pub open spec fn row_apart_within(s: Seq<PatternModel>, defs: Defs, depth: nat) -> bool {
    forall|i: int, j: int|
        #![trigger s[i], s[j]]
        0 <= i < s.len() && 0 <= j < s.len() && i != j ==> settled_within(s[i], defs, depth)
            || shaped_within(s[j], childless(), defs, depth)
}

/// Whether the data of a content model stands apart, as far as references are followed to
/// the given depth.
pub open spec fn data_apart_within(p: PatternModel, defs: Defs, depth: nat) -> bool
    decreases depth, p,
{
    match p {
        PatternModel::Group(values) => all_data_apart_within(values, defs, depth)
            && row_apart_within(values, defs, depth),
        PatternModel::Interleave(values) => all_data_apart_within(values, defs, depth)
            && row_apart_within(values, defs, depth),
        PatternModel::Choice(values) => all_data_apart_within(values, defs, depth),
        PatternModel::OneOrMore(values) => all_data_apart_within(values, defs, depth),
        PatternModel::Ref(name) => depth > 0 ==> match lookup(defs, name) {
            Some(target) => data_apart_within(target, defs, (depth - 1) as nat),
            None => true,
        },
        _ => true,
    }
}

/// Whether the data of content models stands apart.
pub open spec fn all_data_apart_within(s: Seq<PatternModel>, defs: Defs, depth: nat) -> bool
    decreases depth, s,
{
    forall|i: int| 0 <= i < s.len() ==> data_apart_within(#[trigger] s[i], defs, depth)
}

/// Whether the data of a content model stands apart, however far references are followed.
pub open spec fn data_apart(p: PatternModel, defs: Defs) -> bool {
    forall|depth: nat| #[trigger] data_apart_within(p, defs, depth)
}

/// Whether the data of content models stands apart, however far references are followed.
spec fn all_data_apart(s: Seq<PatternModel>, defs: Defs) -> bool {
    forall|i: int| 0 <= i < s.len() ==> data_apart(#[trigger] s[i], defs)
}

/// Whether of any two patterns the one is satisfied by nothing only where it is so without
/// data, or the other takes no children, however far references are followed.
spec fn row_apart(s: Seq<PatternModel>, defs: Defs) -> bool {
    forall|i: int, j: int|
        #![trigger s[i], s[j]]
        0 <= i < s.len() && 0 <= j < s.len() && i != j ==> settled(s[i], defs) || shaped(
            s[j],
            childless(),
            defs,
        )
}

/// A row of what is settled stands apart.
proof fn lemma_settled_row(s: Seq<PatternModel>, defs: Defs)
    requires
        all_settled(s, defs),
    ensures
        row_apart(s, defs),
{
    assert forall|i: int, j: int|
        #![trigger s[i], s[j]]
        0 <= i < s.len() && 0 <= j < s.len() && i != j implies settled(s[i], defs) || shaped(
        s[j],
        childless(),
        defs,
    ) by {
        assert(settled(s[i], defs));
    }
}

/// The operands of a pattern whose data stands apart.
proof fn lemma_apart_operands(p: PatternModel, defs: Defs)
    requires
        data_apart(p, defs),
    ensures
        p is Group || p is Interleave || p is Choice || p is OneOrMore ==> all_data_apart(
            operands(p)->0,
            defs,
        ),
        p is Group || p is Interleave ==> row_apart(operands(p)->0, defs),
{
    if p is Group || p is Interleave || p is Choice || p is OneOrMore {
        let s = operands(p)->0;
        assert forall|i: int| 0 <= i < s.len() implies data_apart(#[trigger] s[i], defs) by {
            assert forall|depth: nat| #[trigger] data_apart_within(s[i], defs, depth) by {
                assert(data_apart_within(p, defs, depth));
                assert(all_data_apart_within(s, defs, depth));
            }
        }
        if p is Group || p is Interleave {
            assert forall|i: int, j: int|
                #![trigger s[i], s[j]]
                0 <= i < s.len() && 0 <= j < s.len() && i != j implies settled(s[i], defs)
                || shaped(s[j], childless(), defs) by {
                if !settled(s[i], defs) && !shaped(s[j], childless(), defs) {
                    let a = choose|a: nat| !settled_within(s[i], defs, a);
                    let b = choose|b: nat| !shaped_within(s[j], childless(), defs, b);
                    let both = a + b;
                    assert(data_apart_within(p, defs, both));
                    assert(row_apart_within(s, defs, both));
                    if settled_within(s[i], defs, both) {
                        lemma_settled_shallower(s[i], defs, a, both);
                    } else {
                        lemma_shallower(s[j], childless(), defs, b, both);
                    }
                }
            }
        }
    }
}

/// A group, an interleave, a choice or a repetition has its data apart where its operands do.
proof fn lemma_apart_compound(p: PatternModel, defs: Defs)
    requires
        p is Group || p is Interleave || p is Choice || p is OneOrMore,
        all_data_apart(operands(p)->0, defs),
        p is Group || p is Interleave ==> row_apart(operands(p)->0, defs),
    ensures
        data_apart(p, defs),
{
    let s = operands(p)->0;
    assert forall|depth: nat| #[trigger] data_apart_within(p, defs, depth) by {
        assert forall|i: int| 0 <= i < s.len() implies data_apart_within(
            #[trigger] s[i],
            defs,
            depth,
        ) by {
            assert(data_apart(s[i], defs));
        }
        assert(all_data_apart_within(s, defs, depth));
        if p is Group || p is Interleave {
            assert forall|i: int, j: int|
                #![trigger s[i], s[j]]
                0 <= i < s.len() && 0 <= j < s.len() && i != j implies settled_within(
                s[i],
                defs,
                depth,
            ) || shaped_within(s[j], childless(), defs, depth) by {
                assert(settled(s[i], defs) || shaped(s[j], childless(), defs));
            }
            assert(row_apart_within(s, defs, depth));
        }
    }
}

/// What a reference whose data stands apart refers to has its data apart.
proof fn lemma_apart_target(name: Text, defs: Defs)
    requires
        data_apart(PatternModel::Ref(name), defs),
        has_key(defs, name),
    ensures
        data_apart(lookup(defs, name)->0, defs),
{
    assert forall|depth: nat| #[trigger] data_apart_within(lookup(defs, name)->0, defs, depth) by {
        assert(data_apart_within(PatternModel::Ref(name), defs, depth + 1));
    }
}

/// A row stays apart without some of its patterns.
proof fn lemma_row_without(s: Seq<PatternModel>, left_out: PatternModel, defs: Defs)
    requires
        row_apart(s, defs),
    ensures
        row_apart(without(s, left_out), defs),
    decreases s.len(),
{
    if s.len() > 0 {
        let front = s.drop_last();
        let rest = without(front, left_out);
        let all = without(s, left_out);
        assert forall|i: int, j: int|
            #![trigger front[i], front[j]]
            0 <= i < front.len() && 0 <= j < front.len() && i != j implies settled(
            front[i],
            defs,
        ) || shaped(front[j], childless(), defs) by {
            assert(settled(s[i], defs) || shaped(s[j], childless(), defs));
        }
        lemma_row_without(front, left_out, defs);
        lemma_without_members(front, left_out);
        if s.last() != left_out {
            let n = s.len() - 1;
            assert(all == rest.push(s.last()));
            assert forall|i: int, j: int|
                #![trigger all[i], all[j]]
                0 <= i < all.len() && 0 <= j < all.len() && i != j implies settled(
                all[i],
                defs,
            ) || shaped(all[j], childless(), defs) by {
                if i < rest.len() && j < rest.len() {
                    assert(settled(rest[i], defs) || shaped(rest[j], childless(), defs));
                } else if i < rest.len() {
                    assert(rest.contains(rest[i]));
                    assert(rest[i] != left_out);
                    assert(front.contains(rest[i]));
                    let k = choose|k: int| 0 <= k < front.len() && front[k] == rest[i];
                    assert(settled(s[k], defs) || shaped(s[n], childless(), defs));
                } else {
                    assert(rest.contains(rest[j]));
                    assert(rest[j] != left_out);
                    assert(front.contains(rest[j]));
                    let k = choose|k: int| 0 <= k < front.len() && front[k] == rest[j];
                    assert(settled(s[n], defs) || shaped(s[k], childless(), defs));
                }
            }
        } else {
            assert(all == rest);
        }
    }
}

/// Groups, interleaves and choices whose data stands apart amount to what has its data apart.
proof fn lemma_algebra_apart(s: Seq<PatternModel>, defs: Defs)
    requires
        all_data_apart(s, defs),
    ensures
        row_apart(s, defs) ==> data_apart(group_of(s), defs),
        row_apart(s, defs) ==> data_apart(interleave_of(s), defs),
        data_apart(choice_of(s), defs),
{
    let rest = without_identity(s);
    let chosen = without(s, PatternModel::NotAllowed);
    lemma_without_members(s, PatternModel::Empty);
    lemma_without_members(s, PatternModel::NotAllowed);
    assert forall|i: int| 0 <= i < rest.len() implies data_apart(#[trigger] rest[i], defs) by {
        assert(rest.contains(rest[i]));
        if s.len() > 1 {
            assert(rest[i] != PatternModel::Empty);
        }
        assert(s.contains(rest[i]));
        let j = choose|j: int| 0 <= j < s.len() && s[j] == rest[i];
        assert(data_apart(s[j], defs));
    }
    assert forall|i: int| 0 <= i < chosen.len() implies data_apart(#[trigger] chosen[i], defs) by {
        assert(chosen.contains(chosen[i]));
        assert(chosen[i] != PatternModel::NotAllowed);
        assert(s.contains(chosen[i]));
        let j = choose|j: int| 0 <= j < s.len() && s[j] == chosen[i];
        assert(data_apart(s[j], defs));
    }
    if row_apart(s, defs) {
        lemma_row_without(s, PatternModel::Empty, defs);
        lemma_apart_compound(PatternModel::Group(rest), defs);
        lemma_apart_compound(PatternModel::Interleave(rest), defs);
    }
    lemma_apart_compound(PatternModel::Choice(chosen), defs);
    assert(data_apart(PatternModel::Empty, defs));
    assert(data_apart(PatternModel::NotAllowed, defs));
}

/// Nothing is left after an attribute of what holds none.
proof fn lemma_attribute_free(
    p: PatternModel,
    name: NameView,
    value: Text,
    defs: Defs,
    registry: RegistryModel,
    context: Bindings,
    depth: nat,
)
    requires
        attribute_free(p, defs, depth),
    ensures
        attribute_derivative(p, name, value, defs, registry, context, depth) is NotAllowed,
    decreases depth, p,
{
    match p {
        PatternModel::Group(values) => {
            lemma_all_attribute_free(values, name, value, defs, registry, context, depth);
            lemma_nothing_matches(
                values,
                attribute_derivatives(values, name, value, defs, registry, context, depth),
                false,
                Container::Group,
                defs,
                depth,
                values.len(),
            );
        },
        PatternModel::Interleave(values) => {
            lemma_all_attribute_free(values, name, value, defs, registry, context, depth);
            lemma_nothing_matches(
                values,
                attribute_derivatives(values, name, value, defs, registry, context, depth),
                false,
                Container::Interleave,
                defs,
                depth,
                values.len(),
            );
        },
        PatternModel::Choice(values) => {
            lemma_all_attribute_free(values, name, value, defs, registry, context, depth);
            lemma_allowed(
                attribute_derivatives(values, name, value, defs, registry, context, depth),
            );
        },
        PatternModel::OneOrMore(values) => {
            if values.len() > 0 {
                assert(all_attribute_free(values, defs, depth));
                lemma_attribute_free(values[0], name, value, defs, registry, context, depth);
                let derived = attribute_derivative(
                    values[0],
                    name,
                    value,
                    defs,
                    registry,
                    context,
                    depth,
                );
                let both = seq![derived, choice_of(seq![p, PatternModel::Empty])];
                assert(both[0] == PatternModel::NotAllowed);
                assert(both.contains(PatternModel::NotAllowed));
            }
        },
        PatternModel::Ref(target) => {
            if depth > 0 && has_key(defs, target) {
                lemma_attribute_free(
                    lookup(defs, target)->0,
                    name,
                    value,
                    defs,
                    registry,
                    context,
                    (depth - 1) as nat,
                );
            }
        },
        _ => {},
    }
}

/// Nothing is left after an attribute of what holds none, each of patterns.
proof fn lemma_all_attribute_free(
    s: Seq<PatternModel>,
    name: NameView,
    value: Text,
    defs: Defs,
    registry: RegistryModel,
    context: Bindings,
    depth: nat,
)
    requires
        all_attribute_free(s, defs, depth),
    ensures
        forall|i: int|
            0 <= i < s.len() ==> (#[trigger] attribute_derivatives(
                s,
                name,
                value,
                defs,
                registry,
                context,
                depth,
            )[i]) is NotAllowed,
    decreases depth, s,
{
    assert forall|i: int| 0 <= i < s.len() implies (#[trigger] attribute_derivatives(
        s,
        name,
        value,
        defs,
        registry,
        context,
        depth,
    )[i]) is NotAllowed by {
        assert(attribute_free(s[i], defs, depth));
        lemma_attribute_free(s[i], name, value, defs, registry, context, depth);
    }
}

/// What is left after an attribute that stands in no group and no interleave is settled.
proof fn lemma_repeated_settled(
    p: PatternModel,
    name: NameView,
    value: Text,
    defs: Defs,
    registry: RegistryModel,
    context: Bindings,
    depth: nat,
)
    requires
        attributes_apart(p, defs, depth),
    ensures
        settled(attribute_derivative(p, name, value, defs, registry, context, depth), defs),
    decreases depth, p,
{
    assert(settled(PatternModel::Empty, defs));
    assert(settled(PatternModel::NotAllowed, defs));
    match p {
        PatternModel::Group(values) => {
            assert(attribute_free(p, defs, depth));
            lemma_attribute_free(p, name, value, defs, registry, context, depth);
        },
        PatternModel::Interleave(values) => {
            assert(attribute_free(p, defs, depth));
            lemma_attribute_free(p, name, value, defs, registry, context, depth);
        },
        PatternModel::Choice(values) => {
            let out = attribute_derivatives(values, name, value, defs, registry, context, depth);
            lemma_all_repeated_settled(values, name, value, defs, registry, context, depth);
            lemma_algebra_settled(out, defs);
        },
        PatternModel::OneOrMore(values) => {
            if values.len() > 0 {
                assert(all_attributes_apart(values, defs, depth));
                lemma_repeated_settled(values[0], name, value, defs, registry, context, depth);
                lemma_repetition_settled(
                    attribute_derivative(values[0], name, value, defs, registry, context, depth),
                    p,
                    defs,
                );
            }
        },
        PatternModel::Ref(target) => {
            if depth > 0 && has_key(defs, target) {
                lemma_repeated_settled(
                    lookup(defs, target)->0,
                    name,
                    value,
                    defs,
                    registry,
                    context,
                    (depth - 1) as nat,
                );
            }
        },
        _ => {},
    }
}

/// What is left of each after an attribute that stands in no group and no interleave is
/// settled.
proof fn lemma_all_repeated_settled(
    s: Seq<PatternModel>,
    name: NameView,
    value: Text,
    defs: Defs,
    registry: RegistryModel,
    context: Bindings,
    depth: nat,
)
    requires
        all_attributes_apart(s, defs, depth),
    ensures
        all_settled(
            attribute_derivatives(s, name, value, defs, registry, context, depth),
            defs,
        ),
    decreases depth, s,
{
    let out = attribute_derivatives(s, name, value, defs, registry, context, depth);
    assert forall|i: int| 0 <= i < out.len() implies settled(#[trigger] out[i], defs) by {
        assert(attributes_apart(s[i], defs, depth));
        lemma_repeated_settled(s[i], name, value, defs, registry, context, depth);
    }
}

/// What is left of what is settled, after an attribute, is settled.
proof fn lemma_attribute_settled(
    p: PatternModel,
    shape: Shape,
    name: NameView,
    value: Text,
    defs: Defs,
    registry: RegistryModel,
    context: Bindings,
    depth: nat,
)
    requires
        settled(p, defs),
        shaped(p, shape, defs),
    ensures
        settled(attribute_derivative(p, name, value, defs, registry, context, depth), defs),
    decreases depth, p, 1nat,
{
    assert(settled(PatternModel::Empty, defs));
    assert(settled(PatternModel::NotAllowed, defs));
    lemma_settled_operands(p, defs);
    match p {
        PatternModel::Group(values) => {
            lemma_operands(p, shape, defs);
            lemma_attributes_settled(values, shape, name, value, defs, registry, context, depth);
            let n = values.len();
            let c = Container::Group;
            let out = attribute_derivatives(values, name, value, defs, registry, context, depth);
            lemma_alternatives_settled(values, out, c, defs, depth, n);
            lemma_algebra_settled(alternatives(values, out, false, c, defs, depth, n), defs);
        },
        PatternModel::Interleave(values) => {
            lemma_operands(p, shape, defs);
            lemma_attributes_settled(values, shape, name, value, defs, registry, context, depth);
            let n = values.len();
            let c = Container::Interleave;
            let out = attribute_derivatives(values, name, value, defs, registry, context, depth);
            lemma_alternatives_settled(values, out, c, defs, depth, n);
            lemma_algebra_settled(alternatives(values, out, false, c, defs, depth, n), defs);
        },
        PatternModel::Choice(values) => {
            lemma_operands(p, shape, defs);
            lemma_attributes_settled(values, shape, name, value, defs, registry, context, depth);
            lemma_algebra_settled(
                attribute_derivatives(values, name, value, defs, registry, context, depth),
                defs,
            );
        },
        PatternModel::OneOrMore(values) => {
            lemma_repetition_left(p, shape, name, value, defs, registry, context, depth);
        },
        PatternModel::Ref(target) => {
            if depth > 0 && has_key(defs, target) {
                lemma_target(target, shape, defs);
                lemma_settled_target(target, defs);
                lemma_attribute_settled(
                    lookup(defs, target)->0,
                    shape,
                    name,
                    value,
                    defs,
                    registry,
                    context,
                    (depth - 1) as nat,
                );
            }
        },
        _ => {},
    }
}

/// What is left of a repetition after an attribute is settled.
proof fn lemma_repetition_left(
    p: PatternModel,
    shape: Shape,
    name: NameView,
    value: Text,
    defs: Defs,
    registry: RegistryModel,
    context: Bindings,
    depth: nat,
)
    requires
        p is OneOrMore,
        shaped(p, shape, defs),
    ensures
        settled(attribute_derivative(p, name, value, defs, registry, context, depth), defs),
        p->OneOrMore_0.len() > 0 ==> settled(
            attribute_derivative(p->OneOrMore_0[0], name, value, defs, registry, context, depth),
            defs,
        ),
{
    assert(settled(PatternModel::NotAllowed, defs));
    let values = p->OneOrMore_0;
    assert(shaped_within(p, shape, defs, depth));
    assert(all_attributes_apart(values, defs, depth));
    if values.len() > 0 {
        assert(attributes_apart(values[0], defs, depth));
        lemma_repeated_settled(values[0], name, value, defs, registry, context, depth);
        lemma_repetition_settled(
            attribute_derivative(values[0], name, value, defs, registry, context, depth),
            p,
            defs,
        );
    }
}

/// What is left of each after an attribute is settled, where each is settled or a repetition.
proof fn lemma_attributes_settled(
    s: Seq<PatternModel>,
    shape: Shape,
    name: NameView,
    value: Text,
    defs: Defs,
    registry: RegistryModel,
    context: Bindings,
    depth: nat,
)
    requires
        forall|i: int| 0 <= i < s.len() ==> s[i] is OneOrMore || settled(#[trigger] s[i], defs),
        all_shaped(s, shape, defs),
    ensures
        all_settled(
            attribute_derivatives(s, name, value, defs, registry, context, depth),
            defs,
        ),
    decreases depth, s, 0nat,
{
    let out = attribute_derivatives(s, name, value, defs, registry, context, depth);
    assert forall|i: int| 0 <= i < out.len() implies settled(#[trigger] out[i], defs) by {
        assert(shaped(s[i], shape, defs));
        if s[i] is OneOrMore {
            lemma_repetition_left(s[i], shape, name, value, defs, registry, context, depth);
        } else {
            assert(settled(s[i], defs));
            lemma_attribute_settled(s[i], shape, name, value, defs, registry, context, depth);
        }
    }
}

/// The alternatives of matching at one of the first `n` operands, in whatever order, are
/// settled where the operands are and what is left of them is.
proof fn lemma_alternatives_settled(
    values: Seq<PatternModel>,
    derived: Seq<PatternModel>,
    container: Container,
    defs: Defs,
    depth: nat,
    n: nat,
)
    requires
        n <= values.len(),
        values.len() == derived.len(),
        all_settled(values, defs),
        all_settled(derived, defs),
    ensures
        all_settled(alternatives(values, derived, false, container, defs, depth, n), defs),
    decreases n,
{
    if n > 0 {
        let m = (n - 1) as nat;
        lemma_alternatives_settled(values, derived, container, defs, depth, m);
        let before = alternatives(values, derived, false, container, defs, depth, m);
        let s = alternatives(values, derived, false, container, defs, depth, n);
        let branch = branch_at(values, derived, false, m as int, defs, depth);
        assert forall|i: int| 0 <= i < branch.len() implies settled(#[trigger] branch[i], defs) by {
            assert(settled(values[i], defs));
            assert(settled(derived[i], defs));
        }
        lemma_algebra_settled(branch, defs);
        assert forall|j: int| 0 <= j < s.len() implies settled(#[trigger] s[j], defs) by {
            if j < before.len() {
                assert(settled(before[j], defs));
            } else {
                assert(s[j] == contained(container, branch));
            }
        }
    }
}

/// What is left of a row after an attribute at one of the first `n` operands has its data
/// apart.
proof fn lemma_alternatives_apart(
    values: Seq<PatternModel>,
    shape: Shape,
    container: Container,
    name: NameView,
    value: Text,
    defs: Defs,
    registry: RegistryModel,
    context: Bindings,
    depth: nat,
    n: nat,
)
    requires
        n <= values.len(),
        all_data_apart(values, defs),
        row_apart(values, defs),
        all_shaped(values, shape, defs),
        all_data_apart(
            attribute_derivatives(values, name, value, defs, registry, context, depth),
            defs,
        ),
    ensures
        all_data_apart(
            alternatives(
                values,
                attribute_derivatives(values, name, value, defs, registry, context, depth),
                false,
                container,
                defs,
                depth,
                n,
            ),
            defs,
        ),
    decreases n,
{
    if n > 0 {
        let m = (n - 1) as nat;
        let derived = attribute_derivatives(values, name, value, defs, registry, context, depth);
        lemma_alternatives_apart(
            values,
            shape,
            container,
            name,
            value,
            defs,
            registry,
            context,
            depth,
            m,
        );
        let before = alternatives(values, derived, false, container, defs, depth, m);
        let s = alternatives(values, derived, false, container, defs, depth, n);
        let branch = branch_at(values, derived, false, m as int, defs, depth);
        let here = values[m as int];
        assert(derived[m as int] == attribute_derivative(
            here,
            name,
            value,
            defs,
            registry,
            context,
            depth,
        ));
        if settled(here, defs) {
            assert(shaped(here, shape, defs));
            lemma_attribute_settled(
                here,
                shape,
                name,
                value,
                defs,
                registry,
                context,
                depth,
            );
        }
        if shaped(here, childless(), defs) {
            lemma_attribute_shaped(
                here,
                name,
                value,
                childless(),
                defs,
                registry,
                context,
                depth,
            );
        }
        assert forall|i: int| 0 <= i < branch.len() implies data_apart(#[trigger] branch[i], defs) by {
            assert(data_apart(values[i], defs));
            assert(data_apart(derived[i], defs));
        }
        assert forall|i: int, j: int|
            #![trigger branch[i], branch[j]]
            0 <= i < branch.len() && 0 <= j < branch.len() && i != j implies settled(
            branch[i],
            defs,
        ) || shaped(branch[j], childless(), defs) by {
            assert(settled(values[i], defs) || shaped(values[j], childless(), defs));
        }
        lemma_algebra_apart(branch, defs);
        assert forall|j: int| 0 <= j < s.len() implies data_apart(#[trigger] s[j], defs) by {
            if j < before.len() {
                assert(data_apart(before[j], defs));
            } else {
                assert(s[j] == contained(container, branch));
            }
        }
    }
}

/// What is left of a repetition has its data apart, where what is left of the first time is
/// settled and has.
proof fn lemma_repetition_apart(derived: PatternModel, whole: PatternModel, defs: Defs)
    requires
        settled(derived, defs),
        data_apart(derived, defs),
        data_apart(whole, defs),
        whole is OneOrMore,
    ensures
        data_apart(repetition_derivative(derived, whole), defs),
{
    let again = seq![whole, PatternModel::Empty];
    assert(data_apart(PatternModel::Empty, defs));
    assert(all_data_apart(again, defs));
    lemma_algebra_apart(again, defs);
    lemma_repetition_settled(derived, whole, defs);
    let both = seq![derived, choice_of(again)];
    assert(all_data_apart(both, defs));
    assert(all_settled(both, defs));
    lemma_settled_row(both, defs);
    lemma_algebra_apart(both, defs);
}

/// What is left of a content model after an attribute has its data apart.
pub proof fn lemma_attribute_apart(
    p: PatternModel,
    shape: Shape,
    name: NameView,
    value: Text,
    defs: Defs,
    registry: RegistryModel,
    context: Bindings,
    depth: nat,
)
    requires
        data_apart(p, defs),
        shaped(p, shape, defs),
    ensures
        data_apart(
            attribute_derivative(p, name, value, defs, registry, context, depth),
            defs,
        ),
    decreases depth, p,
{
    assert(data_apart(PatternModel::Empty, defs));
    assert(data_apart(PatternModel::NotAllowed, defs));
    lemma_apart_operands(p, defs);
    match p {
        PatternModel::Group(values) => {
            lemma_operands(p, shape, defs);
            lemma_attributes_apart(values, shape, name, value, defs, registry, context, depth);
            let n = values.len();
            let c = Container::Group;
            lemma_alternatives_apart(
                values,
                shape,
                c,
                name,
                value,
                defs,
                registry,
                context,
                depth,
                n,
            );
            let derived = attribute_derivatives(
                values,
                name,
                value,
                defs,
                registry,
                context,
                depth,
            );
            lemma_algebra_apart(alternatives(values, derived, false, c, defs, depth, n), defs);
        },
        PatternModel::Interleave(values) => {
            lemma_operands(p, shape, defs);
            lemma_attributes_apart(values, shape, name, value, defs, registry, context, depth);
            let n = values.len();
            let c = Container::Interleave;
            lemma_alternatives_apart(
                values,
                shape,
                c,
                name,
                value,
                defs,
                registry,
                context,
                depth,
                n,
            );
            let derived = attribute_derivatives(
                values,
                name,
                value,
                defs,
                registry,
                context,
                depth,
            );
            lemma_algebra_apart(alternatives(values, derived, false, c, defs, depth, n), defs);
        },
        PatternModel::Choice(values) => {
            lemma_operands(p, shape, defs);
            lemma_attributes_apart(values, shape, name, value, defs, registry, context, depth);
            lemma_algebra_apart(
                attribute_derivatives(values, name, value, defs, registry, context, depth),
                defs,
            );
        },
        PatternModel::OneOrMore(values) => {
            if values.len() > 0 {
                lemma_operands(p, shape, defs);
                assert(shaped(values[0], shape, defs));
                assert(data_apart(values[0], defs));
                lemma_attribute_apart(
                    values[0],
                    shape,
                    name,
                    value,
                    defs,
                    registry,
                    context,
                    depth,
                );
                lemma_repetition_left(p, shape, name, value, defs, registry, context, depth);
                lemma_repetition_apart(
                    attribute_derivative(values[0], name, value, defs, registry, context, depth),
                    p,
                    defs,
                );
            }
        },
        PatternModel::Ref(target) => {
            if depth > 0 && has_key(defs, target) {
                lemma_target(target, shape, defs);
                lemma_apart_target(target, defs);
                lemma_attribute_apart(
                    lookup(defs, target)->0,
                    shape,
                    name,
                    value,
                    defs,
                    registry,
                    context,
                    (depth - 1) as nat,
                );
            }
        },
        _ => {},
    }
}

/// What is left of each content model after an attribute has its data apart.
proof fn lemma_attributes_apart(
    s: Seq<PatternModel>,
    shape: Shape,
    name: NameView,
    value: Text,
    defs: Defs,
    registry: RegistryModel,
    context: Bindings,
    depth: nat,
)
    requires
        all_data_apart(s, defs),
        all_shaped(s, shape, defs),
    ensures
        all_data_apart(
            attribute_derivatives(s, name, value, defs, registry, context, depth),
            defs,
        ),
    decreases depth, s,
{
    let out = attribute_derivatives(s, name, value, defs, registry, context, depth);
    assert forall|i: int| 0 <= i < out.len() implies data_apart(#[trigger] out[i], defs) by {
        assert(data_apart(s[i], defs));
        assert(shaped(s[i], shape, defs));
        lemma_attribute_apart(s[i], shape, name, value, defs, registry, context, depth);
    }
}

// ---------------------------------------------------------------------
// After a child
// ---------------------------------------------------------------------

/// What takes no children leaves nothing after one.
proof fn lemma_childless(p: PatternModel, child: Child, defs: Defs, depth: nat)
    requires
        shaped_within(p, childless(), defs, depth),
    ensures
        child_derivative(p, child, defs, depth) is NotAllowed,
    decreases depth, p,
{
    match p {
        PatternModel::Group(values) => {
            lemma_all_childless(values, child, defs, depth);
            lemma_nothing_matches(
                values,
                child_derivatives(values, child, defs, depth),
                true,
                Container::Group,
                defs,
                depth,
                values.len(),
            );
        },
        PatternModel::Interleave(values) => {
            lemma_all_childless(values, child, defs, depth);
            lemma_nothing_matches(
                values,
                child_derivatives(values, child, defs, depth),
                false,
                Container::Interleave,
                defs,
                depth,
                values.len(),
            );
        },
        PatternModel::Choice(values) => {
            lemma_all_childless(values, child, defs, depth);
            lemma_allowed(child_derivatives(values, child, defs, depth));
        },
        PatternModel::OneOrMore(values) => {
            if values.len() > 0 {
                assert(all_shaped_within(values, childless(), defs, depth));
                lemma_childless(values[0], child, defs, depth);
                let derived = child_derivative(values[0], child, defs, depth);
                let both = seq![derived, choice_of(seq![p, PatternModel::Empty])];
                assert(both[0] == PatternModel::NotAllowed);
                assert(both.contains(PatternModel::NotAllowed));
            }
        },
        PatternModel::Ref(name) => {
            if depth > 0 && has_key(defs, name) {
                lemma_childless(lookup(defs, name)->0, child, defs, (depth - 1) as nat);
            }
        },
        _ => {},
    }
}

/// What takes no children, each of patterns, leaves nothing after one.
proof fn lemma_all_childless(s: Seq<PatternModel>, child: Child, defs: Defs, depth: nat)
    requires
        all_shaped_within(s, childless(), defs, depth),
    ensures
        forall|i: int|
            0 <= i < s.len() ==> (#[trigger] child_derivatives(s, child, defs, depth)[i]) is NotAllowed,
    decreases depth, s,
{
    assert forall|i: int| 0 <= i < s.len() implies (#[trigger] child_derivatives(
        s,
        child,
        defs,
        depth,
    )[i]) is NotAllowed by {
        lemma_childless(s[i], child, defs, depth);
    }
}

/// There is no alternative where no operand can match.
pub proof fn lemma_nothing_matches(
    values: Seq<PatternModel>,
    derived: Seq<PatternModel>,
    sequential: bool,
    container: Container,
    defs: Defs,
    depth: nat,
    n: nat,
)
    requires
        n <= values.len(),
        forall|i: int| 0 <= i < values.len() ==> (#[trigger] derived[i]) is NotAllowed,
    ensures
        alternatives(values, derived, sequential, container, defs, depth, n) == Seq::<
            PatternModel,
        >::empty(),
        choice_of(Seq::<PatternModel>::empty()) is NotAllowed,
    decreases n,
{
    if n > 0 {
        assert(derived[n - 1] is NotAllowed);
        lemma_nothing_matches(
            values,
            derived,
            sequential,
            container,
            defs,
            depth,
            (n - 1) as nat,
        );
    }
}

/// The alternatives of matching a child at one of the first `n` operands are settled and have
/// their data apart.
proof fn lemma_alternatives_left(
    values: Seq<PatternModel>,
    child: Child,
    sequential: bool,
    container: Container,
    defs: Defs,
    depth: nat,
    n: nat,
)
    requires
        n <= values.len(),
        row_apart(values, defs),
        all_data_apart(values, defs),
        all_settled(child_derivatives(values, child, defs, depth), defs),
        all_data_apart(child_derivatives(values, child, defs, depth), defs),
    ensures
        ({
            let derived = child_derivatives(values, child, defs, depth);
            let s = alternatives(values, derived, sequential, container, defs, depth, n);
            all_settled(s, defs) && all_data_apart(s, defs)
        }),
    decreases n,
{
    if n > 0 {
        let m = (n - 1) as nat;
        let derived = child_derivatives(values, child, defs, depth);
        lemma_alternatives_left(values, child, sequential, container, defs, depth, m);
        let before = alternatives(values, derived, sequential, container, defs, depth, m);
        let s = alternatives(values, derived, sequential, container, defs, depth, n);
        let branch = branch_at(values, derived, sequential, m as int, defs, depth);
        assert(derived[m as int] == child_derivative(values[m as int], child, defs, depth));
        if s.len() > before.len() {
            assert(!(derived[m as int] is NotAllowed));
            assert(!shaped(values[m as int], childless(), defs)) by {
                if shaped(values[m as int], childless(), defs) {
                    assert(shaped_within(values[m as int], childless(), defs, depth));
                    lemma_childless(values[m as int], child, defs, depth);
                }
            }
            assert forall|j: int| 0 <= j < branch.len() implies settled(#[trigger] branch[j], defs)
                && data_apart(branch[j], defs) by {
                assert(settled(derived[j], defs));
                assert(data_apart(derived[j], defs));
                assert(data_apart(values[j], defs));
                if j != m {
                    assert(settled(values[j], defs) || shaped(
                        values[m as int],
                        childless(),
                        defs,
                    ));
                    lemma_closed_settled(values[j], defs, depth);
                }
            }
            lemma_algebra_settled(branch, defs);
            lemma_settled_row(branch, defs);
            lemma_algebra_apart(branch, defs);
        }
        assert forall|j: int| 0 <= j < s.len() implies settled(#[trigger] s[j], defs)
            && data_apart(s[j], defs) by {
            if j < before.len() {
                assert(settled(before[j], defs));
                assert(data_apart(before[j], defs));
            } else {
                assert(s[j] == contained(container, branch));
            }
        }
    }
}

/// Where data stands apart, what is left after a child is settled and has its data apart.
pub proof fn lemma_child_apart(p: PatternModel, child: Child, defs: Defs, depth: nat)
    requires
        data_apart(p, defs),
    ensures
        settled(child_derivative(p, child, defs, depth), defs),
        data_apart(child_derivative(p, child, defs, depth), defs),
    decreases depth, p,
{
    assert(settled(PatternModel::Empty, defs));
    assert(settled(PatternModel::NotAllowed, defs));
    assert(settled(PatternModel::Text, defs));
    assert(data_apart(PatternModel::Empty, defs));
    assert(data_apart(PatternModel::NotAllowed, defs));
    assert(data_apart(PatternModel::Text, defs));
    lemma_apart_operands(p, defs);
    match p {
        PatternModel::Group(values) => {
            lemma_children_apart(values, child, defs, depth);
            let n = values.len();
            let c = Container::Group;
            lemma_alternatives_left(values, child, true, c, defs, depth, n);
            let derived = child_derivatives(values, child, defs, depth);
            let s = alternatives(values, derived, true, c, defs, depth, n);
            lemma_algebra_settled(s, defs);
            lemma_algebra_apart(s, defs);
        },
        PatternModel::Interleave(values) => {
            lemma_children_apart(values, child, defs, depth);
            let n = values.len();
            let c = Container::Interleave;
            lemma_alternatives_left(values, child, false, c, defs, depth, n);
            let derived = child_derivatives(values, child, defs, depth);
            let s = alternatives(values, derived, false, c, defs, depth, n);
            lemma_algebra_settled(s, defs);
            lemma_algebra_apart(s, defs);
        },
        PatternModel::Choice(values) => {
            lemma_children_apart(values, child, defs, depth);
            let derived = child_derivatives(values, child, defs, depth);
            lemma_algebra_settled(derived, defs);
            lemma_algebra_apart(derived, defs);
        },
        PatternModel::OneOrMore(values) => {
            if values.len() > 0 {
                assert(data_apart(values[0], defs));
                lemma_child_apart(values[0], child, defs, depth);
                let derived = child_derivative(values[0], child, defs, depth);
                lemma_repetition_settled(derived, p, defs);
                lemma_repetition_apart(derived, p, defs);
            }
        },
        PatternModel::Ref(name) => {
            if depth > 0 && has_key(defs, name) {
                lemma_apart_target(name, defs);
                lemma_child_apart(lookup(defs, name)->0, child, defs, (depth - 1) as nat);
            }
        },
        _ => {},
    }
}

/// Where data stands apart in each, what is left after a child is settled and has its data
/// apart.
proof fn lemma_children_apart(s: Seq<PatternModel>, child: Child, defs: Defs, depth: nat)
    requires
        all_data_apart(s, defs),
    ensures
        all_settled(child_derivatives(s, child, defs, depth), defs),
        all_data_apart(child_derivatives(s, child, defs, depth), defs),
    decreases depth, s,
{
    let out = child_derivatives(s, child, defs, depth);
    assert forall|i: int| 0 <= i < out.len() implies settled(#[trigger] out[i], defs)
        && data_apart(out[i], defs) by {
        assert(data_apart(s[i], defs));
        lemma_child_apart(s[i], child, defs, depth);
    }
}

} // verus!
