//! The forms that a composed schema is made of: only those that the validator derives, with
//! nothing left of the shorthands and references that composition resolves.
use vstd::prelude::*;

use crate::algebra::{
    choice_of, group_of, interleave_of, lemma_without_members, one_or_more_of, without,
    without_identity,
};
use crate::compose::{
    all_rewritten, all_simple, compiled, defined_schema, extended, initial_state, lemma_operands,
    merged_items, operands, rebuilt, renamed, rewritten, simple, simple_definitions, simple_grammar,
    with_moved, with_nested, PlaceModel, StateModel,
};
use crate::derivative::{Defs, MAX_DEPTH};
use crate::grammar::{GrammarModel, PatternModel, RootModel};
use crate::recursion::recursion_problem;
use crate::simplify::{flat_items, referred, reference_key, Feed};
use crate::string_map::{inserted, lemma_inserted_entries};
use crate::text::Text;

verus! {

/// Whether none of the patterns of a group or an interleave adds nothing to it, and none
/// makes it match nothing.
pub open spec fn lean(s: Seq<PatternModel>) -> bool {
    !s.contains(PatternModel::NotAllowed) && !s.contains(PatternModel::Empty)
}

/// Whether a pattern has one of the composed forms, throughout. References to an enclosing
/// grammar are in order only where there is one.
pub open spec fn in_form(p: PatternModel, parents: bool) -> bool
    decreases p,
{
    match p {
        PatternModel::Empty => true,
        PatternModel::NotAllowed => true,
        PatternModel::Text => true,
        PatternModel::Ref(_) => true,
        PatternModel::ParentRef(_) => parents,
        PatternModel::Value { .. } => true,
        PatternModel::Data { datatype, datatype_library, params, except, context } => all_in_form(
            except,
            parents,
        ),
        PatternModel::Element { name, body, context } => body.len() == 1 && all_in_form(
            body,
            parents,
        ),
        PatternModel::Attribute { name, body, context } => body.len() == 1 && all_in_form(
            body,
            parents,
        ),
        PatternModel::OneOrMore(values) => values.len() == 1 && !(values[0] is NotAllowed)
            && all_in_form(values, parents),
        PatternModel::List(values) => values.len() == 1 && all_in_form(values, parents),
        PatternModel::Group(values) => values.len() >= 2 && lean(values) && all_in_form(
            values,
            parents,
        ),
        PatternModel::Interleave(values) => values.len() >= 2 && lean(values) && all_in_form(
            values,
            parents,
        ),
        PatternModel::Choice(values) => values.len() >= 2 && !values.contains(
            PatternModel::NotAllowed,
        ) && all_in_form(values, parents),
        _ => false,
    }
}

/// Whether every pattern has one of the composed forms, throughout.
pub open spec fn all_in_form(s: Seq<PatternModel>, parents: bool) -> bool
    decreases s,
{
    forall|i: int| 0 <= i < s.len() ==> in_form(#[trigger] s[i], parents)
}

/// Whether every named pattern has one of the composed forms, throughout.
pub open spec fn defs_in_form(defs: Defs) -> bool {
    forall|i: int| 0 <= i < defs.len() ==> in_form((#[trigger] defs[i]).1, false)
}

/// What is left of patterns in form is in form.
proof fn lemma_without(s: Seq<PatternModel>, left_out: PatternModel, parents: bool)
    requires
        all_in_form(s, parents),
    ensures
        all_in_form(without(s, left_out), parents),
{
    lemma_without_members(s, left_out);
    let rest = without(s, left_out);
    assert forall|i: int| 0 <= i < rest.len() implies in_form(#[trigger] rest[i], parents) by {
        assert(rest.contains(rest[i]));
        assert(rest[i] != left_out);
        assert(s.contains(rest[i]));
        let j = choose|j: int| 0 <= j < s.len() && s[j] == rest[i];
        assert(in_form(s[j], parents));
    }
}

/// Groups, interleaves and choices of patterns in form amount to patterns in form.
pub proof fn lemma_algebra(s: Seq<PatternModel>, parents: bool)
    requires
        all_in_form(s, parents),
    ensures
        in_form(group_of(s), parents),
        in_form(interleave_of(s), parents),
        in_form(choice_of(s), parents),
{
    lemma_without(s, PatternModel::Empty, parents);
    lemma_without(s, PatternModel::NotAllowed, parents);
    lemma_without_members(s, PatternModel::Empty);
    lemma_without_members(s, PatternModel::NotAllowed);
    let rest = without_identity(s);
    assert(all_in_form(rest, parents));
    if !s.contains(PatternModel::NotAllowed) && rest.len() >= 2 {
        assert(lean(rest));
    }
    if rest.len() == 1 {
        assert(in_form(rest[0], parents));
    }
    assert(in_form(PatternModel::Group(rest), parents) == (rest.len() >= 2 && lean(rest)));
    assert(in_form(PatternModel::Interleave(rest), parents) == (rest.len() >= 2 && lean(rest)));
    let chosen = without(s, PatternModel::NotAllowed);
    if chosen.len() == 1 {
        assert(in_form(chosen[0], parents));
    }
    assert(in_form(PatternModel::Choice(chosen), parents) == (chosen.len() >= 2));
}

/// A pattern with its operands in form is in form.
proof fn lemma_rebuilt(p: PatternModel, s: Seq<PatternModel>, parents: bool)
    requires
        operands(p) is Some,
        all_in_form(s, parents),
    ensures
        in_form(rebuilt(p, s), parents),
{
    reveal(rebuilt);
    lemma_algebra(s, parents);
    let body = group_of(s);
    let alone = seq![body];
    assert(all_in_form(alone, parents));
    assert(in_form(PatternModel::OneOrMore(alone), parents) == !(body is NotAllowed));
    assert(in_form(PatternModel::List(alone), parents));
    let maybe = seq![body, PatternModel::Empty];
    assert(all_in_form(maybe, parents));
    lemma_algebra(maybe, parents);
    let some = seq![one_or_more_of(body), PatternModel::Empty];
    assert(all_in_form(some, parents));
    lemma_algebra(some, parents);
    let mixed = seq![body, PatternModel::Text];
    assert(all_in_form(mixed, parents));
    lemma_algebra(mixed, parents);
    lemma_without(s, PatternModel::NotAllowed, parents);
    match p {
        PatternModel::Element { name, body: b, context } => {
            assert(in_form(PatternModel::Element { name, body: alone, context }, parents));
        },
        PatternModel::Attribute { name, body: b, context } => {
            assert(in_form(PatternModel::Attribute { name, body: alone, context }, parents));
        },
        PatternModel::Data { datatype, datatype_library, params, except, context } => {
            let left = without(s, PatternModel::NotAllowed);
            assert(in_form(
                PatternModel::Data { datatype, datatype_library, params, except: left, context },
                parents,
            ));
        },
        _ => {},
    }
}

/// A pattern of a nested grammar is in form once its references are rewritten.
proof fn lemma_rewritten(p: PatternModel, own: Defs, tag: nat)
    requires
        in_form(p, true),
    ensures
        in_form(rewritten(p, own, tag), false),
    decreases p,
{
    match p {
        PatternModel::Data { datatype, datatype_library, params, except, context } => {
            lemma_all_rewritten(except, own, tag);
        },
        PatternModel::Element { name, body, context } => {
            lemma_all_rewritten(body, own, tag);
        },
        PatternModel::Attribute { name, body, context } => {
            lemma_all_rewritten(body, own, tag);
        },
        PatternModel::OneOrMore(values) => {
            lemma_all_rewritten(values, own, tag);
        },
        PatternModel::List(values) => {
            lemma_all_rewritten(values, own, tag);
        },
        PatternModel::Group(values) => {
            lemma_all_rewritten(values, own, tag);
        },
        PatternModel::Interleave(values) => {
            lemma_all_rewritten(values, own, tag);
        },
        PatternModel::Choice(values) => {
            lemma_all_rewritten(values, own, tag);
        },
        _ => {},
    }
}

/// Patterns of a nested grammar are in form once their references are rewritten.
proof fn lemma_all_rewritten(s: Seq<PatternModel>, own: Defs, tag: nat)
    requires
        all_in_form(s, true),
    ensures
        all_in_form(all_rewritten(s, own, tag), false),
        all_rewritten(s, own, tag).len() == s.len(),
        all_rewritten(s, own, tag).contains(PatternModel::NotAllowed) ==> s.contains(
            PatternModel::NotAllowed,
        ),
        all_rewritten(s, own, tag).contains(PatternModel::Empty) ==> s.contains(
            PatternModel::Empty,
        ),
    decreases s,
{
    let out = all_rewritten(s, own, tag);
    assert forall|i: int| 0 <= i < out.len() implies in_form(#[trigger] out[i], false) by {
        assert(in_form(s[i], true));
        lemma_rewritten(s[i], own, tag);
        assert(out[i] == rewritten(s[i], own, tag));
    }
    if out.contains(PatternModel::NotAllowed) {
        let i = choose|i: int| 0 <= i < out.len() && out[i] == PatternModel::NotAllowed;
        assert(rewritten(s[i], own, tag) is NotAllowed);
        assert(s[i] is NotAllowed);
    }
    if out.contains(PatternModel::Empty) {
        let i = choose|i: int| 0 <= i < out.len() && out[i] == PatternModel::Empty;
        assert(rewritten(s[i], own, tag) is Empty);
        assert(s[i] is Empty);
    }
}

/// What is in form without references to an enclosing grammar is in form with them too.
proof fn lemma_more_parents(p: PatternModel, parents: bool)
    requires
        in_form(p, false),
    ensures
        in_form(p, parents),
    decreases p,
{
    match operands(p) {
        Some(s) => {
            lemma_operands(p);
            assert forall|i: int| 0 <= i < s.len() implies in_form(#[trigger] s[i], parents) by {
                assert(in_form(s[i], false));
                lemma_more_parents(s[i], parents);
            }
            assert(all_in_form(s, parents));
        },
        None => {},
    }
}

/// Named patterns of a nested grammar are in form under their new names.
proof fn lemma_with_nested(extra: Defs, simple_defs: Defs, own: Defs, tag: nat, n: nat)
    requires
        n <= simple_defs.len(),
        defs_in_form(extra),
        forall|i: int|
            0 <= i < simple_defs.len() ==> in_form((#[trigger] simple_defs[i]).1, true),
    ensures
        defs_in_form(with_nested(extra, simple_defs, own, tag, n)),
    decreases n,
{
    if n > 0 {
        let m = (n - 1) as nat;
        lemma_with_nested(extra, simple_defs, own, tag, m);
        let before = with_nested(extra, simple_defs, own, tag, m);
        assert(in_form(simple_defs[n - 1].1, true));
        lemma_rewritten(simple_defs[n - 1].1, own, tag);
        lemma_inserted_in_form(
            before,
            renamed(simple_defs[n - 1].0, tag),
            rewritten(simple_defs[n - 1].1, own, tag),
            false,
        );
    }
}

/// Named patterns that move up through a nested grammar stay in form.
proof fn lemma_with_moved(extra: Defs, inside: Defs, own: Defs, tag: nat, n: nat)
    requires
        n <= inside.len(),
        defs_in_form(extra),
        defs_in_form(inside),
    ensures
        defs_in_form(with_moved(extra, inside, own, tag, n)),
    decreases n,
{
    if n > 0 {
        let m = (n - 1) as nat;
        lemma_with_moved(extra, inside, own, tag, m);
        let before = with_moved(extra, inside, own, tag, m);
        assert(in_form(inside[n - 1].1, false));
        lemma_more_parents(inside[n - 1].1, true);
        lemma_rewritten(inside[n - 1].1, own, tag);
        lemma_inserted_in_form(
            before,
            inside[n - 1].0,
            rewritten(inside[n - 1].1, own, tag),
            false,
        );
    }
}

/// Named patterns stay in form with one more that is.
proof fn lemma_inserted_in_form(before: Defs, name: Text, p: PatternModel, parents: bool)
    requires
        forall|i: int| 0 <= i < before.len() ==> in_form((#[trigger] before[i]).1, parents),
        in_form(p, parents),
    ensures
        forall|i: int|
            0 <= i < inserted(before, name, p).len() ==> in_form(
                (#[trigger] inserted(before, name, p)[i]).1,
                parents,
            ),
{
    lemma_inserted_entries(before, name, p);
    let all = inserted(before, name, p);
    assert forall|i: int| 0 <= i < all.len() implies in_form((#[trigger] all[i]).1, parents) by {
        if all[i] != (name, p) {
            let j = choose|j: int| 0 <= j < before.len() && before[j] == all[i];
            assert(in_form(before[j].1, parents));
        }
    }
}

/// A pattern is reduced to one in form, and keeps the named patterns of nested grammars so.
proof fn lemma_simple(p: PatternModel, place: PlaceModel, state: StateModel, depth: nat)
    requires
        defs_in_form(state.extra),
        simple(p, place, state, depth) is Ok,
    ensures
        in_form(simple(p, place, state, depth)->Ok_0.0, place.parent is Some),
        defs_in_form(simple(p, place, state, depth)->Ok_0.1.extra),
    decreases depth, p, 0nat,
{
    let parents = place.parent is Some;
    match p {
        PatternModel::Ref(_) => {},
        PatternModel::ParentRef(_) => {},
        PatternModel::ExternalRef { href, inherit_namespace, context } => {
            let key = reference_key(href, context.base_uri);
            match referred(state.feed, href, context) {
                Ok(RootModel::Pattern(value)) => {
                    let inner = PlaceModel {
                        loading: place.loading.push(key),
                        scope: Seq::empty(),
                        parent: None,
                    };
                    let next = StateModel { feed: state.feed.drop_first(), ..state };
                    lemma_simple(value, inner, next, (depth - 1) as nat);
                    lemma_more_parents(
                        simple(value, inner, next, (depth - 1) as nat)->Ok_0.0,
                        parents,
                    );
                },
                _ => {},
            }
        },
        PatternModel::Grammar(nested) => {
            lemma_simple_grammar(nested, place, state, depth);
            lemma_more_parents(simple_grammar(nested, place, state, depth)->Ok_0.0, parents);
        },
        _ => {
            if operands(p) is Some {
                let values = operands(p)->0;
                lemma_operands(p);
                lemma_all_simple(values, place, state, depth, values.len());
                let s = all_simple(values, place, state, depth, values.len())->Ok_0.0;
                lemma_rebuilt(p, s, parents);
            }
        },
    }
}

/// A nested grammar is reduced to a pattern in form.
proof fn lemma_simple_grammar(
    nested: GrammarModel,
    place: PlaceModel,
    state: StateModel,
    depth: nat,
)
    requires
        defs_in_form(state.extra),
        simple_grammar(nested, place, state, depth) is Ok,
    ensures
        in_form(simple_grammar(nested, place, state, depth)->Ok_0.0, false),
        defs_in_form(simple_grammar(nested, place, state, depth)->Ok_0.1.extra),
    decreases depth, nested, 0nat,
{
    let below = (depth - 1) as nat;
    let n = nested.items.len();
    let (items, rest) = flat_items(nested.items, place.loading, state.feed, depth, n)->Ok_0;
    let (start, own) = merged_items(items, "nested grammar has no start"@)->Ok_0;
    let inner = PlaceModel { loading: place.loading, scope: own, parent: Some(place.scope) };
    let flat = StateModel { extra: Seq::empty(), feed: rest, ..state };
    lemma_simple(start, inner, flat, below);
    let (first, middle) = simple(start, inner, flat, below)->Ok_0;
    lemma_simple_definitions(own, inner, middle, below, own.len());
    let (defs, end) = simple_definitions(own, inner, middle, below, own.len())->Ok_0;
    let tag = end.next_id + 1;
    lemma_rewritten(first, own, tag);
    lemma_with_moved(state.extra, end.extra, own, tag, end.extra.len());
    let moved = with_moved(state.extra, end.extra, own, tag, end.extra.len());
    lemma_with_nested(moved, defs, own, tag, defs.len());
}

/// Patterns are reduced to patterns in form.
proof fn lemma_all_simple(
    s: Seq<PatternModel>,
    place: PlaceModel,
    state: StateModel,
    depth: nat,
    n: nat,
)
    requires
        defs_in_form(state.extra),
        all_simple(s, place, state, depth, n) is Ok,
    ensures
        all_in_form(all_simple(s, place, state, depth, n)->Ok_0.0, place.parent is Some),
        defs_in_form(all_simple(s, place, state, depth, n)->Ok_0.1.extra),
    decreases depth, s, n,
{
    if n == 0 || n > s.len() {
    } else {
        lemma_all_simple(s, place, state, depth, (n - 1) as nat);
        let (before, middle) = all_simple(s, place, state, depth, (n - 1) as nat)->Ok_0;
        lemma_simple(s[n - 1], place, middle, depth);
        let out = all_simple(s, place, state, depth, n)->Ok_0.0;
        assert forall|i: int| 0 <= i < out.len() implies in_form(
            #[trigger] out[i],
            place.parent is Some,
        ) by {
            if i < before.len() {
                assert(in_form(before[i], place.parent is Some));
            }
        }
    }
}

/// Named patterns are reduced to patterns in form.
proof fn lemma_simple_definitions(
    defs: Defs,
    place: PlaceModel,
    state: StateModel,
    depth: nat,
    n: nat,
)
    requires
        defs_in_form(state.extra),
        simple_definitions(defs, place, state, depth, n) is Ok,
    ensures
        forall|i: int|
            0 <= i < simple_definitions(defs, place, state, depth, n)->Ok_0.0.len() ==> in_form(
                (#[trigger] simple_definitions(defs, place, state, depth, n)->Ok_0.0[i]).1,
                place.parent is Some,
            ),
        defs_in_form(simple_definitions(defs, place, state, depth, n)->Ok_0.1.extra),
    decreases depth, defs, n,
{
    if n == 0 || n > defs.len() {
    } else {
        lemma_simple_definitions(defs, place, state, depth, (n - 1) as nat);
        let (before, middle) = simple_definitions(
            defs,
            place,
            state,
            depth,
            (n - 1) as nat,
        )->Ok_0;
        lemma_simple(defs[n - 1].1, place, middle, depth);
        lemma_inserted_in_form(
            before,
            defs[n - 1].0,
            simple(defs[n - 1].1, place, middle, depth)->Ok_0.0,
            place.parent is Some,
        );
    }
}

/// Named patterns in form stay so with others that are.
proof fn lemma_extended(defs: Defs, more: Defs, n: nat)
    requires
        n <= more.len(),
        defs_in_form(defs),
        defs_in_form(more),
    ensures
        defs_in_form(extended(defs, more, n)),
    decreases n,
{
    if n > 0 {
        lemma_extended(defs, more, (n - 1) as nat);
        assert(in_form(more[n - 1].1, false));
        lemma_inserted_in_form(
            extended(defs, more, (n - 1) as nat),
            more[n - 1].0,
            more[n - 1].1,
            false,
        );
    }
}

/// A composed schema is made only of the forms that the validator derives: no shorthand
/// such as an optional or mixed pattern is left, no reference to another schema or to an
/// enclosing grammar, and no nested grammar, and nothing stands in a group, an interleave, a
/// choice or a repetition that would have no bearing on it.
pub proof fn law_composed_schema_is_in_form(root: RootModel, log: Feed)
    requires
        compiled(root, log) is Ok,
    ensures
        in_form(compiled(root, log)->Ok_0.start, false),
        defs_in_form(compiled(root, log)->Ok_0.definitions),
{
    let depth = MAX_DEPTH as nat;
    match root {
        RootModel::Pattern(p) => {
            let place = PlaceModel {
                loading: Seq::empty(),
                scope: Seq::empty(),
                parent: None,
            };
            lemma_simple(p, place, initial_state(log), depth);
        },
        RootModel::Grammar(grammar) => {
            reveal(defined_schema);
            let n = grammar.items.len();
            let (items, rest) = flat_items(grammar.items, Seq::empty(), log, depth, n)->Ok_0;
            let (start, defs) = merged_items(items, "grammar has no start"@)->Ok_0;
            assert(recursion_problem(start, defs, depth) is None);
            let place = PlaceModel { loading: Seq::empty(), scope: defs, parent: None };
            lemma_simple(start, place, initial_state(rest), depth);
            let (first, middle) = simple(start, place, initial_state(rest), depth)->Ok_0;
            lemma_simple_definitions(defs, place, middle, depth, defs.len());
            let (simple_defs, end) = simple_definitions(
                defs,
                place,
                middle,
                depth,
                defs.len(),
            )->Ok_0;
            lemma_extended(simple_defs, end.extra, end.extra.len());
        },
    }
}

} // verus!
