//! What references stand for where one grammar stands inside another: those of the inner one
//! mean its own names, and those to its parent mean names of the outer one.
use vstd::prelude::*;

use crate::compose::{
    agreed_combine, all_rewritten, define_fragments, fragment_bodies, merged, merged_definitions,
    merged_items, own_problem, renamed, rewritten, simple, simple_definitions, simple_grammar,
    start_fragments, with_moved, with_nested, without_combine, FragmentModel, PlaceModel,
    StateModel,
};
use crate::derivative::Defs;
use crate::grammar::{ContextModel, GrammarModel, ItemModel, PatternModel, RootModel};
use crate::simplify::{
    flat_item, flat_items, not_overridden, override_problem, reference_key, referred, some_define,
    some_start, Feed, Stop,
};
use crate::string_map::{has_key, inserted, lemma_inserted_lookup, lookup};
use crate::text::Text;

verus! {

// ---------------------------------------------------------------------
// References followed
// ---------------------------------------------------------------------

/// A pattern with its references followed so many times: those to its own grammar's names, and
/// those to the names of the grammar around it.
pub open spec fn spread(p: PatternModel, own: Defs, outer: Option<Defs>, k: nat) -> PatternModel
    decreases k, p,
{
    match p {
        PatternModel::Ref(name) => if k == 0 || !has_key(own, name) {
            PatternModel::NotAllowed
        } else {
            spread(lookup(own, name)->0, own, outer, (k - 1) as nat)
        },
        PatternModel::ParentRef(name) => if k == 0 || outer is None || !has_key(outer->0, name) {
            PatternModel::NotAllowed
        } else {
            spread(lookup(outer->0, name)->0, outer->0, None, (k - 1) as nat)
        },
        PatternModel::Element { name, body, context } => PatternModel::Element {
            name,
            body: all_spread(body, own, outer, k),
            context,
        },
        PatternModel::Attribute { name, body, context } => PatternModel::Attribute {
            name,
            body: all_spread(body, own, outer, k),
            context,
        },
        PatternModel::Group(values) => PatternModel::Group(all_spread(values, own, outer, k)),
        PatternModel::Interleave(values) => PatternModel::Interleave(
            all_spread(values, own, outer, k),
        ),
        PatternModel::Choice(values) => PatternModel::Choice(all_spread(values, own, outer, k)),
        PatternModel::Optional(values) => PatternModel::Optional(
            all_spread(values, own, outer, k),
        ),
        PatternModel::ZeroOrMore(values) => PatternModel::ZeroOrMore(
            all_spread(values, own, outer, k),
        ),
        PatternModel::OneOrMore(values) => PatternModel::OneOrMore(
            all_spread(values, own, outer, k),
        ),
        PatternModel::List(values) => PatternModel::List(all_spread(values, own, outer, k)),
        PatternModel::Mixed(values) => PatternModel::Mixed(all_spread(values, own, outer, k)),
        PatternModel::Data { datatype, datatype_library, params, except, context } =>
            PatternModel::Data {
            datatype,
            datatype_library,
            params,
            except: all_spread(except, own, outer, k),
            context,
        },
        _ => p,
    }
}

/// Each pattern with its references followed.
pub open spec fn all_spread(
    s: Seq<PatternModel>,
    own: Defs,
    outer: Option<Defs>,
    k: nat,
) -> Seq<PatternModel>
    decreases k, s,
{
    Seq::new(
        s.len(),
        |i: int|
            if 0 <= i < s.len() {
                spread(s[i], own, outer, k)
            } else {
                PatternModel::Empty
            },
    )
}

/// Whether a pattern refers only to names that are defined.
pub open spec fn bound(p: PatternModel, own: Defs, outer: Option<Defs>) -> bool
    decreases p,
{
    match p {
        PatternModel::Ref(name) => has_key(own, name),
        PatternModel::ParentRef(name) => outer is Some && has_key(outer->0, name),
        PatternModel::Element { name, body, context } => all_bound(body, own, outer),
        PatternModel::Attribute { name, body, context } => all_bound(body, own, outer),
        PatternModel::Group(values) => all_bound(values, own, outer),
        PatternModel::Interleave(values) => all_bound(values, own, outer),
        PatternModel::Choice(values) => all_bound(values, own, outer),
        PatternModel::Optional(values) => all_bound(values, own, outer),
        PatternModel::ZeroOrMore(values) => all_bound(values, own, outer),
        PatternModel::OneOrMore(values) => all_bound(values, own, outer),
        PatternModel::List(values) => all_bound(values, own, outer),
        PatternModel::Mixed(values) => all_bound(values, own, outer),
        PatternModel::Data { datatype, datatype_library, params, except, context } => all_bound(
            except,
            own,
            outer,
        ),
        _ => true,
    }
}

/// Whether each pattern refers only to names that are defined.
pub open spec fn all_bound(s: Seq<PatternModel>, own: Defs, outer: Option<Defs>) -> bool
    decreases s,
{
    forall|i: int| 0 <= i < s.len() ==> bound(#[trigger] s[i], own, outer)
}

/// Whether named patterns refer only to names that are defined.
pub open spec fn all_defs_bound(defs: Defs, outer: Option<Defs>) -> bool {
    forall|name: Text|
        has_key(defs, name) ==> bound(#[trigger] lookup(defs, name)->0, defs, outer)
}

/// Whether named patterns are among others as they are.
pub open spec fn among(some: Defs, all: Defs) -> bool {
    forall|name: Text| has_key(some, name) ==> #[trigger] lookup(all, name) == lookup(some, name)
}

/// What follows references in some named patterns follows them in more.
proof fn lemma_spread_among(p: PatternModel, some: Defs, all: Defs, k: nat)
    requires
        among(some, all),
        all_defs_bound(some, None),
        bound(p, some, None),
    ensures
        spread(p, all, None, k) == spread(p, some, None, k),
    decreases k, p,
{
    match p {
        PatternModel::Ref(name) => {
            assert(lookup(all, name) == lookup(some, name));
            if k > 0 {
                lemma_spread_among(lookup(some, name)->0, some, all, (k - 1) as nat);
            }
        },
        PatternModel::Element { name, body, context } => {
            lemma_all_spread_among(body, some, all, k);
        },
        PatternModel::Attribute { name, body, context } => {
            lemma_all_spread_among(body, some, all, k);
        },
        PatternModel::Group(values) => {
            lemma_all_spread_among(values, some, all, k);
        },
        PatternModel::Interleave(values) => {
            lemma_all_spread_among(values, some, all, k);
        },
        PatternModel::Choice(values) => {
            lemma_all_spread_among(values, some, all, k);
        },
        PatternModel::Optional(values) => {
            lemma_all_spread_among(values, some, all, k);
        },
        PatternModel::ZeroOrMore(values) => {
            lemma_all_spread_among(values, some, all, k);
        },
        PatternModel::OneOrMore(values) => {
            lemma_all_spread_among(values, some, all, k);
        },
        PatternModel::List(values) => {
            lemma_all_spread_among(values, some, all, k);
        },
        PatternModel::Mixed(values) => {
            lemma_all_spread_among(values, some, all, k);
        },
        PatternModel::Data { datatype, datatype_library, params, except, context } => {
            lemma_all_spread_among(except, some, all, k);
        },
        _ => {},
    }
}

/// What follows references in some named patterns follows them in more, in each pattern.
proof fn lemma_all_spread_among(s: Seq<PatternModel>, some: Defs, all: Defs, k: nat)
    requires
        among(some, all),
        all_defs_bound(some, None),
        all_bound(s, some, None),
    ensures
        all_spread(s, all, None, k) == all_spread(s, some, None, k),
    decreases k, s,
{
    assert forall|i: int| 0 <= i < s.len() implies spread(#[trigger] s[i], all, None, k) == spread(
        s[i],
        some,
        None,
        k,
    ) by {
        lemma_spread_among(s[i], some, all, k);
    }
    assert(all_spread(s, all, None, k) =~= all_spread(s, some, None, k));
}

/// Whether the named patterns of a nested grammar stand among others under their new names.
pub open spec fn moved_up(defs: Defs, own: Defs, tag: nat, all: Defs) -> bool {
    forall|name: Text|
        has_key(defs, name) ==> #[trigger] lookup(all, renamed(name, tag)) == Some(
            rewritten(lookup(defs, name)->0, own, tag),
        )
}

/// A pattern of a nested grammar stands for the same once it has moved up: following its
/// references among the patterns of the enclosing grammar gives what following them in its own
/// grammar gave, where `ref` means the nested grammar and `parentRef` the enclosing one.
pub proof fn law_nested_grammars_keep_their_references(
    p: PatternModel,
    defs: Defs,
    own: Defs,
    outer: Defs,
    all: Defs,
    tag: nat,
    k: nat,
)
    requires
        forall|name: Text| has_key(own, name) <==> #[trigger] has_key(defs, name),
        moved_up(defs, own, tag, all),
        among(outer, all),
        all_defs_bound(outer, None),
        all_defs_bound(defs, Some(outer)),
        bound(p, defs, Some(outer)),
    ensures
        spread(rewritten(p, own, tag), all, None, k) == spread(p, defs, Some(outer), k),
    decreases k, p,
{
    match p {
        PatternModel::Ref(name) => {
            assert(has_key(own, name));
            assert(lookup(all, renamed(name, tag)) is Some);
            if k > 0 {
                law_nested_grammars_keep_their_references(
                    lookup(defs, name)->0,
                    defs,
                    own,
                    outer,
                    all,
                    tag,
                    (k - 1) as nat,
                );
            }
        },
        PatternModel::ParentRef(name) => {
            assert(lookup(all, name) == lookup(outer, name));
            if k > 0 {
                lemma_spread_among(lookup(outer, name)->0, outer, all, (k - 1) as nat);
            }
        },
        PatternModel::Element { name, body, context } => {
            lemma_all_kept(body, defs, own, outer, all, tag, k);
        },
        PatternModel::Attribute { name, body, context } => {
            lemma_all_kept(body, defs, own, outer, all, tag, k);
        },
        PatternModel::Group(values) => {
            lemma_all_kept(values, defs, own, outer, all, tag, k);
        },
        PatternModel::Interleave(values) => {
            lemma_all_kept(values, defs, own, outer, all, tag, k);
        },
        PatternModel::Choice(values) => {
            lemma_all_kept(values, defs, own, outer, all, tag, k);
        },
        PatternModel::Optional(values) => {
            lemma_all_kept(values, defs, own, outer, all, tag, k);
        },
        PatternModel::ZeroOrMore(values) => {
            lemma_all_kept(values, defs, own, outer, all, tag, k);
        },
        PatternModel::OneOrMore(values) => {
            lemma_all_kept(values, defs, own, outer, all, tag, k);
        },
        PatternModel::List(values) => {
            lemma_all_kept(values, defs, own, outer, all, tag, k);
        },
        PatternModel::Mixed(values) => {
            lemma_all_kept(values, defs, own, outer, all, tag, k);
        },
        PatternModel::Data { datatype, datatype_library, params, except, context } => {
            lemma_all_kept(except, defs, own, outer, all, tag, k);
        },
        _ => {},
    }
}

/// Patterns of a nested grammar stand for the same once they have moved up.
proof fn lemma_all_kept(
    s: Seq<PatternModel>,
    defs: Defs,
    own: Defs,
    outer: Defs,
    all: Defs,
    tag: nat,
    k: nat,
)
    requires
        forall|name: Text| has_key(own, name) <==> #[trigger] has_key(defs, name),
        moved_up(defs, own, tag, all),
        among(outer, all),
        all_defs_bound(outer, None),
        all_defs_bound(defs, Some(outer)),
        all_bound(s, defs, Some(outer)),
    ensures
        all_spread(all_rewritten(s, own, tag), all, None, k) == all_spread(
            s,
            defs,
            Some(outer),
            k,
        ),
    decreases k, s,
{
    let t = all_rewritten(s, own, tag);
    assert forall|i: int| 0 <= i < s.len() implies spread(#[trigger] t[i], all, None, k) == spread(
        s[i],
        defs,
        Some(outer),
        k,
    ) by {
        assert(bound(s[i], defs, Some(outer)));
        law_nested_grammars_keep_their_references(s[i], defs, own, outer, all, tag, k);
    }
    assert(all_spread(t, all, None, k) =~= all_spread(s, defs, Some(outer), k));
}

/// Different names stay different.
proof fn lemma_renamed(a: Text, b: Text, tag: nat)
    requires
        renamed(a, tag) == renamed(b, tag),
    ensures
        a == b,
{
    let x = renamed(a, tag);
    let y = renamed(b, tag);
    assert(x.len() == y.len());
    assert(a.len() == b.len());
    assert forall|i: int| 0 <= i < a.len() implies a[i] == b[i] by {
        assert(x[i] == a[i]);
        assert(y[i] == b[i]);
    }
    assert(a =~= b);
}

/// The named patterns of a nested grammar move up under their new names, each with its
/// references renamed, and leave the others where they are.
pub proof fn law_nested_definitions_move_up(
    extra: Defs,
    defs: Defs,
    own: Defs,
    tag: nat,
    n: nat,
    other: Text,
)
    requires
        n <= defs.len(),
        forall|i: int, j: int|
            0 <= i < j < defs.len() ==> (#[trigger] defs[i]).0 != (#[trigger] defs[j]).0,
    ensures
        forall|i: int|
            0 <= i < n ==> lookup(
                with_nested(extra, defs, own, tag, n),
                renamed((#[trigger] defs[i]).0, tag),
            ) == Some(rewritten(defs[i].1, own, tag)),
        (forall|i: int| 0 <= i < n ==> renamed((#[trigger] defs[i]).0, tag) != other) ==> lookup(
            with_nested(extra, defs, own, tag, n),
            other,
        ) == lookup(extra, other),
    decreases n,
{
    if n > 0 {
        let m = (n - 1) as nat;
        let before = with_nested(extra, defs, own, tag, m);
        let key = renamed(defs[n - 1].0, tag);
        let value = rewritten(defs[n - 1].1, own, tag);
        law_nested_definitions_move_up(extra, defs, own, tag, m, other);
        lemma_inserted_lookup(before, key, value, other);
        assert forall|i: int| 0 <= i < n implies lookup(
            with_nested(extra, defs, own, tag, n),
            renamed((#[trigger] defs[i]).0, tag),
        ) == Some(rewritten(defs[i].1, own, tag)) by {
            lemma_inserted_lookup(before, key, value, renamed(defs[i].0, tag));
            if i < n - 1 {
                if renamed(defs[i].0, tag) == key {
                    lemma_renamed(defs[i].0, defs[n - 1].0, tag);
                }
            }
        }
    }
}

// ---------------------------------------------------------------------
// Which names a reference can mean
// ---------------------------------------------------------------------

/// A grammar whose start is a pattern, and which defines nothing.
pub open spec fn start_alone(p: PatternModel, context: ContextModel) -> GrammarModel {
    GrammarModel { context, items: seq![ItemModel::Start { combine: None, body: seq![p] }] }
}

/// A grammar whose start is a pattern, and which defines one name.
pub open spec fn start_and_name(
    p: PatternModel,
    name: Text,
    body: PatternModel,
    context: ContextModel,
) -> GrammarModel {
    GrammarModel {
        context,
        items: seq![
            ItemModel::Start { combine: None, body: seq![p] },
            ItemModel::Define { name, combine: None, body: seq![body] },
        ],
    }
}

/// The start of a grammar that defines nothing is its only pattern.
proof fn lemma_start_alone(p: PatternModel, context: ContextModel, no_start: Text)
    ensures
        merged_items(start_alone(p, context).items, no_start) == Ok::<(PatternModel, Defs), Text>(
            (p, Seq::empty()),
        ),
{
    reveal(merged_items);
    let items = start_alone(p, context).items;
    let fragment = FragmentModel { combine: None, body: seq![p] };
    let none = Seq::<FragmentModel>::empty();
    assert(items.len() == 1);
    reveal_with_fuel(start_fragments, 2);
    reveal_with_fuel(define_fragments, 2);
    assert(start_fragments(items, 1) =~= seq![fragment]);
    lemma_one_fragment("start"@, p);
    assert(define_fragments(items, 1).len() == 0);
}

/// One fragment is the pattern.
proof fn lemma_one_fragment(name: Text, p: PatternModel)
    ensures
        merged(name, seq![FragmentModel { combine: None, body: seq![p] }]) == Ok::<
            Option<PatternModel>,
            Text,
        >(Some(p)),
{
    let fragments = seq![FragmentModel { combine: None, body: seq![p] }];
    assert(fragments.len() == 1);
    reveal_with_fuel(agreed_combine, 2);
    reveal_with_fuel(without_combine, 2);
    reveal_with_fuel(fragment_bodies, 2);
    assert(fragment_bodies(fragments, 1) =~= seq![p]);
}

/// The start and the name of a grammar that defines one name.
proof fn lemma_start_and_name(
    p: PatternModel,
    name: Text,
    body: PatternModel,
    context: ContextModel,
    no_start: Text,
)
    ensures
        merged_items(start_and_name(p, name, body, context).items, no_start) == Ok::<
            (PatternModel, Defs),
            Text,
        >((p, seq![(name, body)])),
{
    reveal(merged_items);
    let items = start_and_name(p, name, body, context).items;
    let first = FragmentModel { combine: None, body: seq![p] };
    let second = FragmentModel { combine: None, body: seq![body] };
    assert(items.len() == 2);
    reveal_with_fuel(start_fragments, 3);
    reveal_with_fuel(define_fragments, 3);
    reveal_with_fuel(merged_definitions, 2);
    assert(start_fragments(items, 2) =~= seq![first]);
    lemma_one_fragment("start"@, p);
    lemma_one_fragment(name, body);
    let none = Seq::<(Text, Seq<FragmentModel>)>::empty();
    assert(Seq::<FragmentModel>::empty().push(second) =~= seq![second]);
    assert(define_fragments(items, 2) =~= seq![(name, seq![second])]);
    assert(inserted(Seq::<(Text, PatternModel)>::empty(), name, body) =~= seq![(name, body)]);
}

/// A component that is no inclusion stands for itself.
proof fn lemma_plain_item(item: ItemModel, loading: Seq<Text>, feed: Feed, depth: nat)
    requires
        item is Start || item is Define,
    ensures
        flat_item(item, loading, feed, depth) == Ok::<(Seq<ItemModel>, Feed), Stop>(
            (seq![item], feed),
        ),
{
}

/// Components without inclusions stand for themselves.
proof fn lemma_plain_items(
    items: Seq<ItemModel>,
    loading: Seq<Text>,
    state: StateModel,
    depth: nat,
    n: nat,
)
    requires
        n <= items.len(),
        forall|i: int|
            0 <= i < items.len() ==> (#[trigger] items[i]) is Start || items[i] is Define,
    ensures
        flat_items(items, loading, state.feed, depth, n) == Ok::<
            (Seq<ItemModel>, Feed),
            Stop,
        >((items.take(n as int), state.feed)),
    decreases n,
{
    if n > 0 {
        lemma_plain_items(items, loading, state, depth, (n - 1) as nat);
        assert(items[n - 1] is Start || items[n - 1] is Define);
        lemma_plain_item(items[n - 1], loading, state.feed, depth);
        assert(items.take(n - 1) + seq![items[n - 1]] =~= items.take(n as int));
    } else {
        assert(items.take(0) =~= Seq::<ItemModel>::empty());
    }
}

/// What a reference is reduced to.
proof fn lemma_simple_reference(name: Text, place: PlaceModel, state: StateModel, depth: nat)
    ensures
        simple(PatternModel::Ref(name), place, state, depth) is Ok <==> has_key(place.scope, name),
        simple(PatternModel::Ref(name), place, state, depth) matches Ok(r) ==> r == (
            PatternModel::Ref(name),
            state,
        ),
        simple(PatternModel::ParentRef(name), place, state, depth) is Ok <==> place.parent is Some
            && has_key(place.parent->0, name),
        simple(PatternModel::ParentRef(name), place, state, depth) matches Ok(r) ==> r == (
            PatternModel::ParentRef(name),
            state,
        ),
{
}

/// What text is reduced to.
proof fn lemma_simple_text(place: PlaceModel, state: StateModel, depth: nat)
    ensures
        simple(PatternModel::Text, place, state, depth) == Ok::<(PatternModel, StateModel), Stop>(
            (PatternModel::Text, state),
        ),
{
    reveal(own_problem);
}

/// What a nested grammar is reduced to, by its start and its named patterns.
proof fn lemma_simple_nested(
    nested: GrammarModel,
    start: PatternModel,
    own: Defs,
    place: PlaceModel,
    state: StateModel,
    depth: nat,
)
    requires
        depth > 0,
        forall|i: int|
            0 <= i < nested.items.len() ==> (#[trigger] nested.items[i]) is Start
                || nested.items[i] is Define,
        merged_items(nested.items, "nested grammar has no start"@) == Ok::<
            (PatternModel, Defs),
            Text,
        >((start, own)),
    ensures
        ({
            let inner = PlaceModel {
                loading: place.loading,
                scope: own,
                parent: Some(place.scope),
            };
            let begin = StateModel { extra: Seq::empty(), ..state };
            let d = (depth - 1) as nat;
            let r = simple(PatternModel::Grammar(nested), place, state, depth);
            match simple(start, inner, begin, d) {
                Err(_) => r is Err,
                Ok((first, middle)) => match simple_definitions(
                    own,
                    inner,
                    middle,
                    d,
                    own.len(),
                ) {
                    Err(_) => r is Err,
                    Ok((defs, after)) => after.next_id < u64::MAX ==> r == Ok::<
                        (PatternModel, StateModel),
                        Stop,
                    >(
                        (
                            rewritten(first, own, after.next_id + 1),
                            StateModel {
                                extra: with_nested(
                                    with_moved(
                                        state.extra,
                                        after.extra,
                                        own,
                                        after.next_id + 1,
                                        after.extra.len(),
                                    ),
                                    defs,
                                    own,
                                    after.next_id + 1,
                                    defs.len(),
                                ),
                                next_id: after.next_id + 1,
                                feed: after.feed,
                            },
                        ),
                    ),
                },
            }
        }),
{
    lemma_plain_items(nested.items, place.loading, state, depth, nested.items.len());
    assert(nested.items.take(nested.items.len() as int) =~= nested.items);
    assert(simple(PatternModel::Grammar(nested), place, state, depth) == simple_grammar(
        nested,
        place,
        state,
        depth,
    ));
}

/// A reference means a name of the innermost grammar around it, and one to the parent means a
/// name of the grammar around that: where a nested grammar defines nothing, a `ref` in it is
/// an error even where the enclosing grammar defines the name, and a `parentRef` in it means
/// that name; outside nested grammars it is the other way round.
pub proof fn law_references_mean_the_innermost_grammar(
    name: Text,
    context: ContextModel,
    place: PlaceModel,
    state: StateModel,
    depth: nat,
)
    requires
        depth > 0,
        state.next_id < u64::MAX,
        state.extra.len() == 0,
    ensures
        simple(PatternModel::Ref(name), place, state, depth) is Ok <==> has_key(place.scope, name),
        simple(PatternModel::ParentRef(name), place, state, depth) is Ok <==> place.parent is Some
            && has_key(place.parent->0, name),
        simple(
            PatternModel::Grammar(start_alone(PatternModel::Ref(name), context)),
            place,
            state,
            depth,
        ) is Err,
        ({
            let inner = simple(
                PatternModel::Grammar(start_alone(PatternModel::ParentRef(name), context)),
                place,
                state,
                depth,
            );
            &&& inner is Ok <==> has_key(place.scope, name)
            &&& inner is Ok ==> inner->Ok_0.0 == PatternModel::Ref(name) && inner->Ok_0.1.extra
                == state.extra
        }),
{
    let own = Seq::<(Text, PatternModel)>::empty();
    let ref_ = PatternModel::Ref(name);
    let up = PatternModel::ParentRef(name);
    let a = start_alone(ref_, context);
    let b = start_alone(up, context);
    let inner = PlaceModel { loading: place.loading, scope: own, parent: Some(place.scope) };
    let begin = StateModel { extra: Seq::empty(), ..state };
    let d = (depth - 1) as nat;
    assert(!has_key(own, name));
    lemma_start_alone(ref_, context, "nested grammar has no start"@);
    lemma_start_alone(up, context, "nested grammar has no start"@);
    lemma_simple_reference(name, place, state, depth);
    lemma_simple_reference(name, inner, begin, d);
    lemma_simple_nested(a, ref_, own, place, state, depth);
    lemma_simple_nested(b, up, own, place, state, depth);
    assert(simple_definitions(own, inner, begin, d, 0) == Ok::<(Defs, StateModel), Stop>(
        (own, begin),
    ));
    assert(begin.extra.len() == 0);
    assert(with_moved(state.extra, begin.extra, own, begin.next_id + 1, 0) == state.extra);
    assert(with_nested(state.extra, own, own, begin.next_id + 1, 0) == state.extra);
    assert(rewritten(up, own, begin.next_id + 1) == ref_);
}

/// A name that a nested grammar defines is its own: a `ref` to it means the nested definition,
/// under a new name, whatever the enclosing grammar defines.
pub proof fn law_nested_names_are_their_own(
    name: Text,
    context: ContextModel,
    place: PlaceModel,
    state: StateModel,
    depth: nat,
)
    requires
        depth > 1,
        state.next_id < u64::MAX,
    ensures
        ({
            let nested = start_and_name(
                PatternModel::Ref(name),
                name,
                PatternModel::Text,
                context,
            );
            let inner = simple(PatternModel::Grammar(nested), place, state, depth);
            inner matches Ok((PatternModel::Ref(target), after)) && lookup(after.extra, target)
                == Some(PatternModel::Text) && target != name
        }),
{
    let body = PatternModel::Text;
    let p = PatternModel::Ref(name);
    let nested = start_and_name(p, name, body, context);
    let own = seq![(name, body)];
    let inner = PlaceModel { loading: place.loading, scope: own, parent: Some(place.scope) };
    let begin = StateModel { extra: Seq::empty(), ..state };
    let d = (depth - 1) as nat;
    let tag = begin.next_id + 1;
    lemma_start_and_name(p, name, body, context, "nested grammar has no start"@);
    assert(own.len() == 1 && own[0].0 == name && own[0].1 == body);
    assert(lookup(own, name) == Some(body));
    lemma_simple_reference(name, inner, begin, d);
    lemma_simple_text(inner, begin, d);
    lemma_simple_nested(nested, p, own, place, state, depth);
    lemma_one_definition(name, body, inner, begin, d);
    let up = with_moved(state.extra, begin.extra, own, tag, 0);
    law_nested_definitions_move_up(up, own, own, tag, 1, name);
    assert(renamed(name, tag).len() > name.len()) by {
        reveal_strlit("#");
        assert("#"@.len() == 1);
    }
    assert(rewritten(body, own, tag) == body);
    assert(rewritten(p, own, tag) == PatternModel::Ref(renamed(name, tag)));
    assert(lookup(with_nested(up, own, own, tag, 1), renamed(own[0].0, tag)) == Some(
        rewritten(own[0].1, own, tag),
    ));
}

/// One named pattern that stands as it is.
proof fn lemma_one_definition(
    name: Text,
    body: PatternModel,
    place: PlaceModel,
    state: StateModel,
    depth: nat,
)
    requires
        simple(body, place, state, depth) == Ok::<(PatternModel, StateModel), Stop>((body, state)),
    ensures
        simple_definitions(seq![(name, body)], place, state, depth, 1) == Ok::<
            (Defs, StateModel),
            Stop,
        >((seq![(name, body)], state)),
{
    let own = seq![(name, body)];
    let none = Seq::<(Text, PatternModel)>::empty();
    assert(own.len() == 1 && own[0].0 == name && own[0].1 == body);
    assert(simple_definitions(own, place, state, depth, 0) == Ok::<(Defs, StateModel), Stop>(
        (none, state),
    ));
    assert(inserted(none, name, body) =~= own);
}

/// A reference to another schema stands for the pattern that the schema is, whose own
/// references mean none of the names around it.
pub proof fn law_external_references_stand_for_their_schema(
    p: PatternModel,
    place: PlaceModel,
    state: StateModel,
    name: Text,
    depth: nat,
)
    requires
        depth > 0,
        p matches PatternModel::ExternalRef { href, inherit_namespace, context }
            && !place.loading.contains(reference_key(href, context.base_uri)),
    ensures
        ({
            let r = simple(p, place, state, depth);
            match referred(state.feed, p->ExternalRef_href, p->ExternalRef_context) {
                Ok(RootModel::Pattern(found)) => {
                    &&& found is Text ==> r is Ok && r->Ok_0.0 == found && r->Ok_0.1.extra
                        == state.extra
                    &&& found == PatternModel::Ref(name) ==> r is Err
                    &&& found == PatternModel::ParentRef(name) ==> r is Err
                },
                Ok(RootModel::Grammar(_)) => r is Err,
                Err(_) => r is Err,
            }
        }),
{
    let answer = referred(state.feed, p->ExternalRef_href, p->ExternalRef_context);
    let key = reference_key(p->ExternalRef_href, p->ExternalRef_context.base_uri);
    let inner = PlaceModel { loading: place.loading.push(key), scope: Seq::empty(), parent: None };
    let next = StateModel { feed: state.feed.drop_first(), ..state };
    let d = (depth - 1) as nat;
    assert(!has_key(Seq::<(Text, PatternModel)>::empty(), name));
    lemma_simple_reference(name, inner, next, d);
    lemma_simple_text(inner, next, d);
}

// ---------------------------------------------------------------------
// Inclusions
// ---------------------------------------------------------------------

/// A division stands for its components, in their place and order.
pub proof fn law_divisions_are_transparent(
    children: Seq<ItemModel>,
    loading: Seq<Text>,
    feed: Feed,
    depth: nat,
)
    ensures
        flat_items(seq![ItemModel::Div(children)], loading, feed, depth, 1) == flat_items(
            children,
            loading,
            feed,
            depth,
            children.len(),
        ),
{
    let items = seq![ItemModel::Div(children)];
    let none = Seq::<ItemModel>::empty();
    assert(items.len() == 1 && items[0] == ItemModel::Div(children));
    assert(flat_items(items, loading, feed, depth, 0) == Ok::<(Seq<ItemModel>, Feed), Stop>(
        (none, feed),
    ));
    lemma_division(children, loading, feed, depth);
    match flat_items(children, loading, feed, depth, children.len()) {
        Err(_) => {},
        Ok((more, rest)) => {
            assert(none + more =~= more);
        },
    }
}

/// What a division stands for.
proof fn lemma_division(children: Seq<ItemModel>, loading: Seq<Text>, feed: Feed, depth: nat)
    ensures
        flat_item(ItemModel::Div(children), loading, feed, depth) == flat_items(
            children,
            loading,
            feed,
            depth,
            children.len(),
        ),
{
}

/// Components stand for what each of them does, one after the other.
pub proof fn law_components_follow_one_another(
    items: Seq<ItemModel>,
    more: Seq<ItemModel>,
    loading: Seq<Text>,
    feed: Feed,
    depth: nat,
)
    ensures
        ({
            let both = items + more;
            let all = flat_items(both, loading, feed, depth, both.len());
            match flat_items(items, loading, feed, depth, items.len()) {
                Err(stop) => all == Err::<(Seq<ItemModel>, Feed), Stop>(stop),
                Ok((front, middle)) => match flat_items(more, loading, middle, depth, more.len()) {
                    Err(stop) => all == Err::<(Seq<ItemModel>, Feed), Stop>(stop),
                    Ok((back, rest)) => all == Ok::<(Seq<ItemModel>, Feed), Stop>(
                        (front + back, rest),
                    ),
                },
            }
        }),
{
    lemma_front(items, more, loading, feed, depth, items.len());
    lemma_back(items, more, loading, feed, depth, more.len());
}

/// The first components stand for the same with others behind them.
proof fn lemma_front(
    items: Seq<ItemModel>,
    more: Seq<ItemModel>,
    loading: Seq<Text>,
    feed: Feed,
    depth: nat,
    n: nat,
)
    requires
        n <= items.len(),
    ensures
        flat_items(items + more, loading, feed, depth, n) == flat_items(
            items,
            loading,
            feed,
            depth,
            n,
        ),
    decreases n,
{
    if n > 0 {
        lemma_front(items, more, loading, feed, depth, (n - 1) as nat);
        assert((items + more)[n - 1] == items[n - 1]);
    }
}

/// The components behind others stand for the same as without them.
proof fn lemma_back(
    items: Seq<ItemModel>,
    more: Seq<ItemModel>,
    loading: Seq<Text>,
    feed: Feed,
    depth: nat,
    n: nat,
)
    requires
        n <= more.len(),
    ensures
        ({
            let all = flat_items(items + more, loading, feed, depth, items.len() + n);
            match flat_items(items + more, loading, feed, depth, items.len()) {
                Err(stop) => all == Err::<(Seq<ItemModel>, Feed), Stop>(stop),
                Ok((front, middle)) => match flat_items(more, loading, middle, depth, n) {
                    Err(stop) => all == Err::<(Seq<ItemModel>, Feed), Stop>(stop),
                    Ok((back, rest)) => all == Ok::<(Seq<ItemModel>, Feed), Stop>(
                        (front + back, rest),
                    ),
                },
            }
        }),
    decreases n,
{
    let both = items + more;
    match flat_items(both, loading, feed, depth, items.len()) {
        Err(_) => {
            if n > 0 {
                lemma_back(items, more, loading, feed, depth, (n - 1) as nat);
            }
        },
        Ok((front, middle)) => {
            if n == 0 {
                assert(front + Seq::<ItemModel>::empty() =~= front);
            } else {
                let m = (n - 1) as nat;
                lemma_back(items, more, loading, feed, depth, m);
                assert(both[items.len() + n - 1] == more[n - 1]);
                match flat_items(more, loading, middle, depth, m) {
                    Err(_) => {},
                    Ok((back, rest)) => {
                        match flat_item(more[n - 1], loading, rest, depth) {
                            Err(_) => {},
                            Ok((last, end)) => {
                                assert((front + back) + last =~= front + (back + last));
                            },
                        }
                    },
                }
            }
        },
    }
}

/// An inclusion stands for the components of the grammar that it names, in their order. Where
/// it defines something itself, its own definitions take the place of those with the same name,
/// each of which must be there, and what it refers to must be a grammar.
pub proof fn law_inclusions_stand_for_their_grammar(
    item: ItemModel,
    loading: Seq<Text>,
    feed: Feed,
    depth: nat,
)
    requires
        depth > 0,
        item matches ItemModel::Include { href, inherit_namespace, body, context }
            && !loading.contains(reference_key(href, context.base_uri)),
    ensures
        ({
            let r = flat_item(item, loading, feed, depth);
            let own = item->Include_body;
            let inner = loading.push(
                reference_key(item->Include_href, item->Include_context.base_uri),
            );
            match referred(feed, item->Include_href, item->Include_context) {
                Ok(RootModel::Grammar(grammar)) => {
                    let theirs = flat_items(
                        grammar.items,
                        inner,
                        feed.drop_first(),
                        (depth - 1) as nat,
                        grammar.items.len(),
                    );
                    &&& theirs is Err ==> r is Err
                    &&& own.len() == 0 && theirs is Ok ==> r is Ok && r->Ok_0.0 == theirs->Ok_0.0
                    &&& forall|i: int|
                        0 <= i < own.len() && all_plain(own) && theirs is Ok ==> match #[trigger]
                        own[i] {
                            ItemModel::Start { combine, body } => !some_start(theirs->Ok_0.0),
                            ItemModel::Define { name, combine, body } => !some_define(
                                theirs->Ok_0.0,
                                name,
                            ),
                            _ => false,
                        } ==> r is Err
                },
                Ok(RootModel::Pattern(_)) => r is Err,
                Err(_) => r is Err,
            }
        }),
{
    let own = item->Include_body;
    let inner = loading.push(reference_key(item->Include_href, item->Include_context.base_uri));
    match referred(feed, item->Include_href, item->Include_context) {
        Ok(RootModel::Grammar(grammar)) => {
            let theirs = flat_items(
                grammar.items,
                inner,
                feed.drop_first(),
                (depth - 1) as nat,
                grammar.items.len(),
            );
            if theirs is Ok {
                let (included, middle) = theirs->Ok_0;
                if own.len() == 0 {
                    let none = Seq::<ItemModel>::empty();
                    assert(flat_items(own, inner, middle, depth, 0) == Ok::<
                        (Seq<ItemModel>, Feed),
                        Stop,
                    >((none, middle)));
                    lemma_none_overridden(included, included.len());
                    assert(included.take(included.len() as int) =~= included);
                    assert(included + none =~= included);
                    assert(override_problem(included, none, 0) is None);
                }
                if all_plain(own) {
                    lemma_plain_items(
                        own,
                        inner,
                        StateModel { extra: Seq::empty(), next_id: 0, feed: middle },
                        depth,
                        own.len(),
                    );
                    assert(own.take(own.len() as int) =~= own);
                    assert forall|i: int| 0 <= i < own.len() && (match #[trigger] own[i] {
                        ItemModel::Start { combine, body } => !some_start(included),
                        ItemModel::Define { name, combine, body } => !some_define(included, name),
                        _ => false,
                    }) implies override_problem(included, own, own.len()) is Some by {
                        lemma_override_missing(included, own, i, own.len());
                    }
                }
            }
        },
        _ => {},
    }
}

/// Whether components are all definitions.
pub open spec fn all_plain(items: Seq<ItemModel>) -> bool {
    forall|i: int| 0 <= i < items.len() ==> (#[trigger] items[i]) is Start || items[i] is Define
}

/// Nothing is overridden by nothing.
proof fn lemma_none_overridden(included: Seq<ItemModel>, n: nat)
    requires
        n <= included.len(),
    ensures
        not_overridden(included, Seq::empty(), n) == included.take(n as int),
    decreases n,
{
    if n > 0 {
        lemma_none_overridden(included, (n - 1) as nat);
        assert(!some_start(Seq::<ItemModel>::empty()));
        assert(included.take(n - 1).push(included[n - 1]) =~= included.take(n as int));
    } else {
        assert(included.take(0) =~= Seq::<ItemModel>::empty());
    }
}

/// An override of what is not there is a problem.
proof fn lemma_override_missing(
    included: Seq<ItemModel>,
    overriding: Seq<ItemModel>,
    i: int,
    n: nat,
)
    requires
        0 <= i < n <= overriding.len(),
        match overriding[i] {
            ItemModel::Start { combine, body } => !some_start(included),
            ItemModel::Define { name, combine, body } => !some_define(included, name),
            _ => false,
        },
    ensures
        override_problem(included, overriding, n) is Some,
    decreases n,
{
    if i < n - 1 {
        lemma_override_missing(included, overriding, i, (n - 1) as nat);
    }
}

} // verus!
