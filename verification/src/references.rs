//! What the start and the named patterns of a composed schema refer to is defined.
use vstd::prelude::*;

use crate::acyclic::{mentions, some_mentions};
use crate::algebra::{
    choice_of, group_of, interleave_of, lemma_without_members, one_or_more_of, without,
    without_identity,
};
use crate::compose::{
    all_rewritten, all_simple, compiled, defined_schema, extended, initial_state, lemma_operands,
    merged_items, operands, rebuilt, renamed, rewritten, simple, simple_definitions,
    simple_grammar, with_moved, with_nested, PlaceModel, StateModel,
};
use crate::derivative::{Defs, MAX_DEPTH};
use crate::grammar::{GrammarModel, PatternModel, RootModel};
use crate::simplify::{flat_items, reference_key, referred, Feed};
use crate::string_map::{
    has_key, inserted, lemma_inserted_entries, lemma_inserted_keeps, lemma_lookup_index, lookup,
};
use crate::text::Text;

verus! {

/// Whether a pattern refers to a name of the enclosing grammar.
spec fn mentions_parent(p: PatternModel, name: Text) -> bool
    decreases p,
{
    match p {
        PatternModel::ParentRef(target) => target == name,
        _ => match operands(p) {
            Some(values) => {
                proof {
                    lemma_operands(p);
                }
                some_mention_parent(values, name)
            },
            None => false,
        },
    }
}

/// Whether some pattern refers to a name of the enclosing grammar.
spec fn some_mention_parent(s: Seq<PatternModel>, name: Text) -> bool
    decreases s,
{
    exists|i: int| 0 <= i < s.len() && mentions_parent(#[trigger] s[i], name)
}

/// Whether a name is referred to, in the grammar or in the enclosing one.
spec fn refers(p: PatternModel, parent: bool, name: Text) -> bool {
    if parent {
        mentions_parent(p, name)
    } else {
        mentions(p, name)
    }
}

/// Whether some pattern refers to a name, in the grammar or in the enclosing one.
spec fn some_refer(s: Seq<PatternModel>, parent: bool, name: Text) -> bool {
    exists|i: int| 0 <= i < s.len() && refers(#[trigger] s[i], parent, name)
}

/// A pattern with operands refers to what they refer to.
proof fn lemma_operands_refer(p: PatternModel, parent: bool, name: Text)
    requires
        operands(p) is Some,
    ensures
        refers(p, parent, name) <==> some_refer(operands(p)->0, parent, name),
{
    let values = operands(p)->0;
    if refers(p, parent, name) {
        if parent {
            assert(some_mention_parent(values, name));
            let i = choose|i: int|
                0 <= i < values.len() && mentions_parent(#[trigger] values[i], name);
            assert(refers(values[i], parent, name));
        } else {
            assert(some_mentions(values, name));
            let i = choose|i: int| 0 <= i < values.len() && mentions(#[trigger] values[i], name);
            assert(refers(values[i], parent, name));
        }
    }
    if some_refer(values, parent, name) {
        let i = choose|i: int| 0 <= i < values.len() && refers(#[trigger] values[i], parent, name);
        if parent {
            assert(some_mention_parent(values, name));
        } else {
            assert(some_mentions(values, name));
        }
    }
}

/// What is left of patterns refers to nothing else.
proof fn lemma_without_refers(
    s: Seq<PatternModel>,
    left_out: PatternModel,
    parent: bool,
    name: Text,
)
    requires
        some_refer(without(s, left_out), parent, name),
    ensures
        some_refer(s, parent, name),
{
    lemma_without_members(s, left_out);
    let rest = without(s, left_out);
    let i = choose|i: int| 0 <= i < rest.len() && refers(#[trigger] rest[i], parent, name);
    assert(rest.contains(rest[i]));
    assert(s.contains(rest[i]));
    let j = choose|j: int| 0 <= j < s.len() && s[j] == rest[i];
    assert(refers(s[j], parent, name));
}

/// Groups, interleaves and choices refer to nothing but what their patterns refer to.
proof fn lemma_algebra_refers(s: Seq<PatternModel>, parent: bool, name: Text)
    ensures
        refers(group_of(s), parent, name) ==> some_refer(s, parent, name),
        refers(interleave_of(s), parent, name) ==> some_refer(s, parent, name),
        refers(choice_of(s), parent, name) ==> some_refer(s, parent, name),
{
    let rest = without_identity(s);
    let chosen = without(s, PatternModel::NotAllowed);
    lemma_operands_refer(PatternModel::Group(rest), parent, name);
    lemma_operands_refer(PatternModel::Interleave(rest), parent, name);
    lemma_operands_refer(PatternModel::Choice(chosen), parent, name);
    if rest.len() == 1 && refers(rest[0], parent, name) {
        assert(some_refer(rest, parent, name));
    }
    if some_refer(rest, parent, name) && s.len() > 1 {
        lemma_without_refers(s, PatternModel::Empty, parent, name);
    }
    if chosen.len() == 1 && refers(chosen[0], parent, name) {
        assert(some_refer(chosen, parent, name));
    }
    if some_refer(chosen, parent, name) {
        lemma_without_refers(s, PatternModel::NotAllowed, parent, name);
    }
}

/// A pattern with its operands reduced refers to nothing but what they refer to.
proof fn lemma_rebuilt_refers(
    p: PatternModel,
    s: Seq<PatternModel>,
    parent: bool,
    name: Text,
)
    requires
        operands(p) is Some,
        refers(rebuilt(p, s), parent, name),
    ensures
        some_refer(s, parent, name),
{
    reveal(rebuilt);
    let body = group_of(s);
    lemma_algebra_refers(s, parent, name);
    let q = rebuilt(p, s);
    let alone = seq![body];
    let maybe = seq![body, PatternModel::Empty];
    let some = seq![one_or_more_of(body), PatternModel::Empty];
    let mixed = seq![body, PatternModel::Text];
    lemma_algebra_refers(maybe, parent, name);
    lemma_algebra_refers(some, parent, name);
    lemma_algebra_refers(mixed, parent, name);
    lemma_operands_refer(PatternModel::OneOrMore(alone), parent, name);
    assert(some_refer(alone, parent, name) ==> refers(body, parent, name));
    assert(refers(one_or_more_of(body), parent, name) ==> refers(body, parent, name));
    assert(!refers(PatternModel::Empty, parent, name));
    assert(!refers(PatternModel::Text, parent, name));
    assert(some_refer(maybe, parent, name) ==> refers(body, parent, name));
    assert(some_refer(some, parent, name) ==> refers(body, parent, name));
    assert(some_refer(mixed, parent, name) ==> refers(body, parent, name));
    match p {
        PatternModel::Element { .. } => {
            lemma_operands_refer(q, parent, name);
            assert(operands(q)->0 == alone);
        },
        PatternModel::Attribute { .. } => {
            if !(q is NotAllowed) {
                lemma_operands_refer(q, parent, name);
                assert(operands(q)->0 == alone);
            }
        },
        PatternModel::List(_) => {
            if !(q is NotAllowed) {
                lemma_operands_refer(q, parent, name);
                assert(operands(q)->0 == alone);
            }
        },
        PatternModel::Data { .. } => {
            lemma_operands_refer(q, parent, name);
            lemma_without_refers(s, PatternModel::NotAllowed, parent, name);
        },
        _ => {},
    }
}

/// What a pattern of a nested grammar refers to once it is one of the enclosing grammar.
proof fn lemma_rewritten_refers(p: PatternModel, own: Defs, tag: nat, name: Text)
    requires
        mentions(rewritten(p, own, tag), name),
    ensures
        mentions_parent(p, name) || mentions(p, name) && !has_key(own, name) || exists|x: Text|
            #[trigger] mentions(p, x) && has_key(own, x) && name == renamed(x, tag),
    decreases p,
{
    match p {
        PatternModel::Ref(x) => {
            assert(mentions(p, x));
        },
        PatternModel::ParentRef(_) => {},
        _ => {
            if operands(p) is Some {
                let values = operands(p)->0;
                let out = all_rewritten(values, own, tag);
                lemma_operands(p);
                assert(operands(rewritten(p, own, tag)) == Some(out));
                assert(some_mentions(out, name));
                let i = choose|i: int| 0 <= i < out.len() && mentions(#[trigger] out[i], name);
                assert(out[i] == rewritten(values[i], own, tag));
                lemma_rewritten_refers(values[i], own, tag, name);
                if mentions_parent(values[i], name) {
                    assert(some_mention_parent(values, name));
                } else if mentions(values[i], name) && !has_key(own, name) {
                    assert(some_mentions(values, name));
                } else {
                    let x = choose|x: Text| #[trigger]
                        mentions(values[i], x) && has_key(own, x) && name == renamed(x, tag);
                    assert(some_mentions(values, x));
                    assert(mentions(p, x));
                }
            }
        },
    }
}

/// Whether one set of named patterns has all names of another.
spec fn keeps(before: Defs, after: Defs) -> bool {
    forall|x: Text| has_key(before, x) ==> #[trigger] has_key(after, x)
}

/// Whether what a reduced pattern refers to is there.
spec fn answered(q: PatternModel, place: PlaceModel, extra: Defs) -> bool {
    &&& forall|m: Text| #[trigger] mentions(q, m) ==> has_key(place.scope, m) || has_key(extra, m)
    &&& forall|m: Text| #[trigger]
        mentions_parent(q, m) ==> place.parent is Some && has_key(place.parent->0, m)
}

/// Whether what a pattern refers to is there, and none of it in an enclosing grammar.
spec fn settled(q: PatternModel, scope: Defs, extra: Defs) -> bool {
    &&& forall|m: Text| #[trigger] mentions(q, m) ==> has_key(scope, m) || has_key(extra, m)
    &&& forall|m: Text| !(#[trigger] mentions_parent(q, m))
}

/// Whether each named pattern was there before, or refers to what is there.
spec fn grown(before: Defs, after: Defs, scope: Defs) -> bool {
    forall|i: int|
        0 <= i < after.len() ==> before.contains(#[trigger] after[i]) || settled(
            after[i].1,
            scope,
            after,
        )
}

/// Named patterns that have grown twice have grown.
proof fn lemma_grown(first: Defs, second: Defs, third: Defs, scope: Defs)
    requires
        grown(first, second, scope),
        grown(second, third, scope),
        keeps(second, third),
    ensures
        grown(first, third, scope),
{
    assert forall|i: int| 0 <= i < third.len() implies first.contains(#[trigger] third[i])
        || settled(third[i].1, scope, third) by {
        if second.contains(third[i]) {
            let j = choose|j: int| 0 <= j < second.len() && second[j] == third[i];
            assert(first.contains(second[j]) || settled(second[j].1, scope, second));
        }
    }
}

/// Named patterns with more added are those and the added ones.
proof fn lemma_with_moved(extra: Defs, inside: Defs, own: Defs, tag: nat, n: nat)
    requires
        n <= inside.len(),
    ensures
        keeps(extra, with_moved(extra, inside, own, tag, n)),
        forall|i: int|
            0 <= i < n ==> has_key(
                with_moved(extra, inside, own, tag, n),
                (#[trigger] inside[i]).0,
            ),
        forall|i: int|
            0 <= i < with_moved(extra, inside, own, tag, n).len() ==> extra.contains(
                #[trigger] with_moved(extra, inside, own, tag, n)[i],
            ) || exists|j: int|
                0 <= j < n && with_moved(extra, inside, own, tag, n)[i].1 == rewritten(
                    (#[trigger] inside[j]).1,
                    own,
                    tag,
                ),
    decreases n,
{
    if n > 0 {
        let m = (n - 1) as nat;
        lemma_with_moved(extra, inside, own, tag, m);
        let before = with_moved(extra, inside, own, tag, m);
        let name = inside[n - 1].0;
        let value = rewritten(inside[n - 1].1, own, tag);
        lemma_inserted_keeps(before, name, value);
        lemma_inserted_entries(before, name, value);
        let after = inserted(before, name, value);
        assert forall|i: int| 0 <= i < after.len() implies extra.contains(#[trigger] after[i])
            || exists|j: int|
            0 <= j < n && after[i].1 == rewritten((#[trigger] inside[j]).1, own, tag) by {
            if after[i] == (name, value) {
                assert(after[i].1 == rewritten(inside[n - 1].1, own, tag));
            } else {
                let k = choose|k: int| 0 <= k < before.len() && before[k] == after[i];
                if !extra.contains(before[k]) {
                    let j = choose|j: int|
                        0 <= j < m && before[k].1 == rewritten((#[trigger] inside[j]).1, own, tag);
                    assert(after[i].1 == rewritten(inside[j].1, own, tag));
                }
            }
        }
    }
}

/// A nested grammar's named patterns are there under their new names, beside the others.
proof fn lemma_with_nested(extra: Defs, defs: Defs, own: Defs, tag: nat, n: nat)
    requires
        n <= defs.len(),
    ensures
        keeps(extra, with_nested(extra, defs, own, tag, n)),
        forall|i: int|
            0 <= i < n ==> has_key(
                with_nested(extra, defs, own, tag, n),
                renamed((#[trigger] defs[i]).0, tag),
            ),
        forall|i: int|
            0 <= i < with_nested(extra, defs, own, tag, n).len() ==> extra.contains(
                #[trigger] with_nested(extra, defs, own, tag, n)[i],
            ) || exists|j: int|
                0 <= j < n && with_nested(extra, defs, own, tag, n)[i].1 == rewritten(
                    (#[trigger] defs[j]).1,
                    own,
                    tag,
                ),
    decreases n,
{
    if n > 0 {
        let m = (n - 1) as nat;
        lemma_with_nested(extra, defs, own, tag, m);
        let before = with_nested(extra, defs, own, tag, m);
        let name = renamed(defs[n - 1].0, tag);
        let value = rewritten(defs[n - 1].1, own, tag);
        lemma_inserted_keeps(before, name, value);
        lemma_inserted_entries(before, name, value);
        let after = inserted(before, name, value);
        assert forall|i: int| 0 <= i < after.len() implies extra.contains(#[trigger] after[i])
            || exists|j: int|
            0 <= j < n && after[i].1 == rewritten((#[trigger] defs[j]).1, own, tag) by {
            if after[i] == (name, value) {
                assert(after[i].1 == rewritten(defs[n - 1].1, own, tag));
            } else {
                let k = choose|k: int| 0 <= k < before.len() && before[k] == after[i];
                if !extra.contains(before[k]) {
                    let j = choose|j: int|
                        0 <= j < m && before[k].1 == rewritten((#[trigger] defs[j]).1, own, tag);
                    assert(after[i].1 == rewritten(defs[j].1, own, tag));
                }
            }
        }
    }
}

/// A pattern of a nested grammar refers, as one of the enclosing grammar, to what is there.
proof fn lemma_rewritten_settled(
    p: PatternModel,
    inner: PlaceModel,
    inside: Defs,
    scope: Defs,
    defs: Defs,
    tag: nat,
    after: Defs,
)
    requires
        answered(p, inner, inside),
        inner.parent == Some(scope),
        keeps(inside, after),
        forall|i: int| 0 <= i < inner.scope.len() ==> has_key(defs, (#[trigger] inner.scope[i]).0),
        forall|i: int|
            0 <= i < defs.len() ==> has_key(after, renamed((#[trigger] defs[i]).0, tag)),
    ensures
        settled(rewritten(p, inner.scope, tag), scope, after),
{
    let own = inner.scope;
    let q = rewritten(p, own, tag);
    assert forall|m: Text| #[trigger] mentions(q, m) implies has_key(scope, m) || has_key(
        after,
        m,
    ) by {
        lemma_rewritten_refers(p, own, tag, m);
        if mentions_parent(p, m) {
        } else if mentions(p, m) && !has_key(own, m) {
            assert(has_key(inside, m));
        } else {
            let x = choose|x: Text| #[trigger]
                mentions(p, x) && has_key(own, x) && m == renamed(x, tag);
            let k = lemma_lookup_index(own, x);
            assert(has_key(defs, own[k].0));
            let i = lemma_lookup_index(defs, x);
            assert(has_key(after, renamed(defs[i].0, tag)));
        }
    }
    assert forall|m: Text| !(#[trigger] mentions_parent(q, m)) by {
        lemma_no_parent(p, own, tag, m);
    }
}

/// What a reduced pattern refers to is there, and nothing that was there is lost.
proof fn lemma_simple(p: PatternModel, place: PlaceModel, state: StateModel, depth: nat)
    requires
        simple(p, place, state, depth) is Ok,
    ensures
        ({
            let (q, after) = simple(p, place, state, depth)->Ok_0;
            &&& answered(q, place, after.extra)
            &&& keeps(state.extra, after.extra)
            &&& grown(state.extra, after.extra, place.scope)
        }),
    decreases depth, p, 0nat,
{
    match p {
        PatternModel::Ref(_) => {},
        PatternModel::ParentRef(_) => {},
        PatternModel::ExternalRef { href, inherit_namespace, context } => {
            let key = reference_key(href, context.base_uri);
            match referred(state.feed, href, context) {
                Ok(RootModel::Pattern(value)) => {
                    let inner = PlaceModel {
                        loading: place.loading.push(key),
                        scope: Seq::empty(),
                        parent: None,
                    };
                    let next = StateModel { feed: state.feed.drop_first(), ..state };
                    lemma_simple(value, inner, next, (depth - 1) as nat);
                    let after = simple(p, place, state, depth)->Ok_0.1;
                    assert(grown(state.extra, after.extra, inner.scope));
                    assert forall|i: int| 0 <= i < after.extra.len() implies state.extra.contains(
                        #[trigger] after.extra[i],
                    ) || settled(after.extra[i].1, place.scope, after.extra) by {
                        if !state.extra.contains(after.extra[i]) {
                            assert(settled(after.extra[i].1, inner.scope, after.extra));
                        }
                    }
                },
                _ => {},
            }
        },
        PatternModel::Grammar(nested) => {
            lemma_simple_grammar(nested, place, state, depth);
        },
        _ => {
            if operands(p) is Some {
                let values = operands(p)->0;
                lemma_operands(p);
                lemma_all_simple(values, place, state, depth, values.len());
                let (s, after) = all_simple(values, place, state, depth, values.len())->Ok_0;
                let q = rebuilt(p, s);
                assert forall|m: Text| #[trigger] mentions(q, m) implies has_key(place.scope, m)
                    || has_key(after.extra, m) by {
                    assert(refers(q, false, m));
                    lemma_rebuilt_refers(p, s, false, m);
                    let i = choose|i: int| 0 <= i < s.len() && refers(#[trigger] s[i], false, m);
                    assert(answered(s[i], place, after.extra));
                }
                assert forall|m: Text| #[trigger] mentions_parent(q, m) implies place.parent is Some
                    && has_key(place.parent->0, m) by {
                    assert(refers(q, true, m));
                    lemma_rebuilt_refers(p, s, true, m);
                    let i = choose|i: int| 0 <= i < s.len() && refers(#[trigger] s[i], true, m);
                    assert(answered(s[i], place, after.extra));
                }
            }
        },
    }
}

/// What a nested grammar that is reduced refers to is there.
proof fn lemma_simple_grammar(
    nested: GrammarModel,
    place: PlaceModel,
    state: StateModel,
    depth: nat,
)
    requires
        simple_grammar(nested, place, state, depth) is Ok,
    ensures
        ({
            let (q, after) = simple_grammar(nested, place, state, depth)->Ok_0;
            &&& answered(q, place, after.extra)
            &&& keeps(state.extra, after.extra)
            &&& grown(state.extra, after.extra, place.scope)
        }),
    decreases depth, nested, 0nat,
{
    let below = (depth - 1) as nat;
    let n = nested.items.len();
    let (items, rest) = flat_items(nested.items, place.loading, state.feed, depth, n)->Ok_0;
    let (start, own) = merged_items(items, "nested grammar has no start"@)->Ok_0;
    let inner = PlaceModel { loading: place.loading, scope: own, parent: Some(place.scope) };
    let flat = StateModel { extra: Seq::empty(), feed: rest, ..state };
    lemma_simple(start, inner, flat, below);
    let (first, middle) = simple(start, inner, flat, below)->Ok_0;
    lemma_simple_definitions(own, inner, middle, below, own.len());
    let (defs, end) = simple_definitions(own, inner, middle, below, own.len())->Ok_0;
    lemma_grown(flat.extra, middle.extra, end.extra, own);
    let tag = end.next_id + 1;
    let count = end.extra.len();
    let moved = with_moved(state.extra, end.extra, own, tag, count);
    lemma_with_moved(state.extra, end.extra, own, tag, count);
    lemma_with_nested(moved, defs, own, tag, defs.len());
    let (q, after) = simple_grammar(nested, place, state, depth)->Ok_0;
    assert(q == rewritten(first, own, tag));
    assert(after.extra == with_nested(moved, defs, own, tag, defs.len()));
    assert(keeps(end.extra, after.extra)) by {
        assert forall|x: Text| has_key(end.extra, x) implies #[trigger] has_key(after.extra, x) by {
            let k = lemma_lookup_index(end.extra, x);
            assert(has_key(moved, end.extra[k].0));
        }
    }
    assert(answered(first, inner, end.extra));
    lemma_rewritten_settled(first, inner, end.extra, place.scope, defs, tag, after.extra);
    assert forall|i: int| 0 <= i < after.extra.len() implies state.extra.contains(
        #[trigger] after.extra[i],
    ) || settled(after.extra[i].1, place.scope, after.extra) by {
        let p = if moved.contains(after.extra[i]) {
            let k = choose|k: int| 0 <= k < moved.len() && moved[k] == after.extra[i];
            if state.extra.contains(moved[k]) {
                PatternModel::Empty
            } else {
                let j = choose|j: int|
                    0 <= j < count && moved[k].1 == rewritten(
                        (#[trigger] end.extra[j]).1,
                        own,
                        tag,
                    );
                assert(settled(end.extra[j].1, own, end.extra));
                end.extra[j].1
            }
        } else {
            let j = choose|j: int|
                0 <= j < defs.len() && after.extra[i].1 == rewritten(
                    (#[trigger] defs[j]).1,
                    own,
                    tag,
                );
            assert(answered(defs[j].1, inner, end.extra));
            defs[j].1
        };
        if !state.extra.contains(after.extra[i]) {
            lemma_rewritten_settled(p, inner, end.extra, place.scope, defs, tag, after.extra);
        }
    }
}

/// A pattern of the enclosing grammar no longer refers to it as that.
proof fn lemma_no_parent(p: PatternModel, own: Defs, tag: nat, name: Text)
    ensures
        !mentions_parent(rewritten(p, own, tag), name),
    decreases p,
{
    if operands(p) is Some && mentions_parent(rewritten(p, own, tag), name) {
        let values = operands(p)->0;
        let out = all_rewritten(values, own, tag);
        lemma_operands(p);
        assert(operands(rewritten(p, own, tag)) == Some(out));
        assert(some_mention_parent(out, name));
        let i = choose|i: int| 0 <= i < out.len() && mentions_parent(#[trigger] out[i], name);
        lemma_no_parent(values[i], own, tag, name);
        assert(out[i] == rewritten(values[i], own, tag));
    }
}

/// What reduced patterns refer to is there.
proof fn lemma_all_simple(
    s: Seq<PatternModel>,
    place: PlaceModel,
    state: StateModel,
    depth: nat,
    n: nat,
)
    requires
        all_simple(s, place, state, depth, n) is Ok,
    ensures
        ({
            let (out, after) = all_simple(s, place, state, depth, n)->Ok_0;
            &&& forall|i: int|
                0 <= i < out.len() ==> answered(#[trigger] out[i], place, after.extra)
            &&& keeps(state.extra, after.extra)
            &&& grown(state.extra, after.extra, place.scope)
        }),
    decreases depth, s, n,
{
    if n == 0 || n > s.len() {
    } else {
        let m = (n - 1) as nat;
        lemma_all_simple(s, place, state, depth, m);
        let (before, middle) = all_simple(s, place, state, depth, m)->Ok_0;
        lemma_simple(s[n - 1], place, middle, depth);
        let (out, after) = all_simple(s, place, state, depth, n)->Ok_0;
        lemma_grown(state.extra, middle.extra, after.extra, place.scope);
        assert forall|i: int| 0 <= i < out.len() implies answered(
            #[trigger] out[i],
            place,
            after.extra,
        ) by {
            if i < before.len() {
                assert(answered(before[i], place, middle.extra));
            }
        }
    }
}

/// What reduced named patterns refer to is there, and all the names are.
proof fn lemma_simple_definitions(
    defs: Defs,
    place: PlaceModel,
    state: StateModel,
    depth: nat,
    n: nat,
)
    requires
        simple_definitions(defs, place, state, depth, n) is Ok,
        n <= defs.len(),
    ensures
        ({
            let (out, after) = simple_definitions(defs, place, state, depth, n)->Ok_0;
            &&& forall|i: int|
                0 <= i < out.len() ==> answered((#[trigger] out[i]).1, place, after.extra)
            &&& forall|i: int| 0 <= i < n ==> has_key(out, (#[trigger] defs[i]).0)
            &&& keeps(state.extra, after.extra)
            &&& grown(state.extra, after.extra, place.scope)
        }),
    decreases depth, defs, n,
{
    if n > 0 {
        let m = (n - 1) as nat;
        lemma_simple_definitions(defs, place, state, depth, m);
        let (before, middle) = simple_definitions(defs, place, state, depth, m)->Ok_0;
        lemma_simple(defs[n - 1].1, place, middle, depth);
        let (p, after) = simple(defs[n - 1].1, place, middle, depth)->Ok_0;
        lemma_grown(state.extra, middle.extra, after.extra, place.scope);
        let name = defs[n - 1].0;
        let out = inserted(before, name, p);
        lemma_inserted_keeps(before, name, p);
        lemma_inserted_entries(before, name, p);
        assert forall|i: int| 0 <= i < out.len() implies answered(
            (#[trigger] out[i]).1,
            place,
            after.extra,
        ) by {
            if out[i] != (name, p) {
                let j = choose|j: int| 0 <= j < before.len() && before[j] == out[i];
                assert(answered(before[j].1, place, middle.extra));
            }
        }
    }
}

/// Named patterns with others added are there, and are those or the others.
proof fn lemma_extended(defs: Defs, more: Defs, n: nat)
    requires
        n <= more.len(),
    ensures
        keeps(defs, extended(defs, more, n)),
        forall|i: int| 0 <= i < n ==> has_key(extended(defs, more, n), (#[trigger] more[i]).0),
        forall|i: int|
            0 <= i < extended(defs, more, n).len() ==> defs.contains(
                #[trigger] extended(defs, more, n)[i],
            ) || more.contains(extended(defs, more, n)[i]),
    decreases n,
{
    if n > 0 {
        let m = (n - 1) as nat;
        lemma_extended(defs, more, m);
        let before = extended(defs, more, m);
        let (name, p) = more[n - 1];
        lemma_inserted_keeps(before, name, p);
        lemma_inserted_entries(before, name, p);
        let out = inserted(before, name, p);
        assert(more.contains((name, p)));
        assert forall|i: int| 0 <= i < out.len() implies defs.contains(#[trigger] out[i])
            || more.contains(out[i]) by {
            if out[i] != (name, p) {
                let j = choose|j: int| 0 <= j < before.len() && before[j] == out[i];
                assert(defs.contains(before[j]) || more.contains(before[j]));
            }
        }
    }
}

/// What the start of a composed schema refers to is defined, and so is what its named
/// patterns refer to.
pub proof fn law_references_are_defined(root: RootModel, log: Feed)
    requires
        compiled(root, log) is Ok,
    ensures
        ({
            let schema = compiled(root, log)->Ok_0;
            &&& forall|m: Text| #[trigger]
                mentions(schema.start, m) ==> has_key(schema.definitions, m)
            &&& forall|a: Text, m: Text|
                has_key(schema.definitions, a) && #[trigger] mentions(
                    lookup(schema.definitions, a)->0,
                    m,
                ) ==> has_key(schema.definitions, m)
        }),
{
    let schema = compiled(root, log)->Ok_0;
    let depth = MAX_DEPTH as nat;
    match root {
        RootModel::Pattern(p) => {
            let place = PlaceModel {
                loading: Seq::empty(),
                scope: Seq::empty(),
                parent: None,
            };
            lemma_simple(p, place, initial_state(log), depth);
            let (q, end) = simple(p, place, initial_state(log), depth)->Ok_0;
            assert forall|a: Text, m: Text|
                has_key(schema.definitions, a) && #[trigger] mentions(
                    lookup(schema.definitions, a)->0,
                    m,
                ) implies has_key(schema.definitions, m) by {
                let k = lemma_lookup_index(schema.definitions, a);
                assert(settled(end.extra[k].1, place.scope, end.extra));
            }
        },
        RootModel::Grammar(grammar) => {
            reveal(defined_schema);
            let n = grammar.items.len();
            let (items, rest) = flat_items(grammar.items, Seq::empty(), log, depth, n)->Ok_0;
            let (start, defs) = merged_items(items, "grammar has no start"@)->Ok_0;
            let place = PlaceModel { loading: Seq::empty(), scope: defs, parent: None };
            lemma_simple(start, place, initial_state(rest), depth);
            let (first, middle) = simple(start, place, initial_state(rest), depth)->Ok_0;
            lemma_simple_definitions(defs, place, middle, depth, defs.len());
            let (own, end) = simple_definitions(defs, place, middle, depth, defs.len())->Ok_0;
            lemma_grown(Seq::empty(), middle.extra, end.extra, defs);
            lemma_extended(own, end.extra, end.extra.len());
            let all = schema.definitions;
            assert(all == extended(own, end.extra, end.extra.len()));
            assert forall|m: Text|
                has_key(defs, m) || has_key(end.extra, m) implies #[trigger] has_key(all, m) by {
                if has_key(defs, m) {
                    let k = lemma_lookup_index(defs, m);
                    assert(has_key(own, defs[k].0));
                } else {
                    let k = lemma_lookup_index(end.extra, m);
                    assert(has_key(all, end.extra[k].0));
                }
            }
            assert forall|a: Text, m: Text|
                has_key(all, a) && #[trigger] mentions(lookup(all, a)->0, m) implies has_key(
                all,
                m,
            ) by {
                let k = lemma_lookup_index(all, a);
                if end.extra.contains(all[k]) {
                    let j = choose|j: int| 0 <= j < end.extra.len() && end.extra[j] == all[k];
                    assert(settled(end.extra[j].1, defs, end.extra));
                } else {
                    let j = choose|j: int| 0 <= j < own.len() && own[j] == all[k];
                    assert(answered(own[j].1, place, end.extra));
                }
            }
        },
    }
}

} // verus!
