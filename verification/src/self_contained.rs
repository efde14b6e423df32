//! Schemas that refer to no other: the resolver has no part in them.
use vstd::prelude::*;

use crate::compose::{
    all_simple, compiled, defined_schema, each, each_in_item, followed, initial_state,
    kept_by_merging, lemma_merged_items, lemma_operands, lemma_simple_before,
    lemma_simple_definitions_before, merged_items, operands, root_schema, simple,
    simple_definitions, simple_grammar, PlaceModel, StateModel,
};
use crate::derivative::{Defs, MAX_DEPTH};
use crate::grammar::{GrammarModel, ItemModel, PatternModel, RootModel};
use crate::recursion::recursion_problem;
use crate::simplify::{
    flat_item, flat_items, lemma_flat_items_before, Exchange, Feed, SchemaModel, Stop,
};
use crate::text::Text;

verus! {

/// Whether a pattern refers to no other schema.
pub open spec fn contained(p: PatternModel) -> bool
    decreases p,
{
    match p {
        PatternModel::ExternalRef { .. } => false,
        PatternModel::Grammar(grammar) => all_items_contained(grammar.items),
        _ => match operands(p) {
            Some(values) => {
                proof {
                    lemma_operands(p);
                }
                all_contained(values)
            },
            None => true,
        },
    }
}

/// Whether no pattern refers to another schema.
pub open spec fn all_contained(s: Seq<PatternModel>) -> bool
    decreases s,
{
    forall|i: int| 0 <= i < s.len() ==> contained(#[trigger] s[i])
}

/// Whether a component of a grammar refers to no other schema.
pub open spec fn item_contained(item: ItemModel) -> bool
    decreases item,
{
    match item {
        ItemModel::Start { combine, body } => all_contained(body),
        ItemModel::Define { name, combine, body } => all_contained(body),
        ItemModel::Div(children) => all_items_contained(children),
        ItemModel::Include { .. } => false,
    }
}

/// Whether no component of a grammar refers to another schema.
pub open spec fn all_items_contained(items: Seq<ItemModel>) -> bool
    decreases items,
{
    forall|i: int| 0 <= i < items.len() ==> item_contained(#[trigger] items[i])
}

/// Whether a schema refers to no other.
pub open spec fn root_contained(root: RootModel) -> bool {
    match root {
        RootModel::Pattern(p) => contained(p),
        RootModel::Grammar(grammar) => all_items_contained(grammar.items),
    }
}

/// Whether a component is a start or a definition that refers to no other schema.
spec fn plain(item: ItemModel) -> bool {
    item_contained(item) && (item is Start || item is Define)
}

/// Such components are resolved without a question.
proof fn lemma_flat_item(item: ItemModel, loading: Seq<Text>, feed: Feed, depth: nat)
    requires
        item_contained(item),
    ensures
        flat_item(item, loading, feed, depth) matches Ok((items, rest)) && rest == feed
            && forall|i: int| 0 <= i < items.len() ==> plain(#[trigger] items[i]),
    decreases item, 0nat,
{
    match item {
        ItemModel::Div(children) => {
            lemma_flat_items(children, loading, feed, depth, children.len());
        },
        _ => {},
    }
}

/// Such components are resolved without a question.
proof fn lemma_flat_items(
    items: Seq<ItemModel>,
    loading: Seq<Text>,
    feed: Feed,
    depth: nat,
    n: nat,
)
    requires
        all_items_contained(items),
    ensures
        flat_items(items, loading, feed, depth, n) matches Ok((out, rest)) && rest == feed
            && forall|i: int| 0 <= i < out.len() ==> plain(#[trigger] out[i]),
    decreases items, n,
{
    if n == 0 || n > items.len() {
    } else {
        lemma_flat_items(items, loading, feed, depth, (n - 1) as nat);
        assert(item_contained(items[n - 1]));
        lemma_flat_item(items[n - 1], loading, feed, depth);
    }
}

/// What is merged of such components refers to no other schema.
proof fn lemma_merged(items: Seq<ItemModel>, no_start: Text)
    requires
        forall|i: int| 0 <= i < items.len() ==> plain(#[trigger] items[i]),
        merged_items(items, no_start) is Ok,
    ensures
        contained(merged_items(items, no_start)->Ok_0.0),
        forall|i: int|
            0 <= i < merged_items(items, no_start)->Ok_0.1.len() ==> contained(
                (#[trigger] merged_items(items, no_start)->Ok_0.1[i]).1,
            ),
{
    let has = |p: PatternModel| contained(p);
    assert(kept_by_merging(has)) by {
        assert forall|s: Seq<PatternModel>| #[trigger] each(s, has) implies has(
            PatternModel::Choice(s),
        ) && has(PatternModel::Interleave(s)) by {
            assert forall|i: int| 0 <= i < s.len() implies contained(#[trigger] s[i]) by {
                assert(has(s[i]));
            }
            assert(all_contained(s));
            assert(contained(PatternModel::Choice(s)));
            assert(contained(PatternModel::Interleave(s)));
        }
    }
    assert forall|i: int| 0 <= i < items.len() implies each_in_item(#[trigger] items[i], has) by {
        assert(plain(items[i]));
        match items[i] {
            ItemModel::Start { combine, body } => {
                assert forall|j: int| 0 <= j < body.len() implies has(#[trigger] body[j]) by {
                    assert(contained(body[j]));
                }
            },
            ItemModel::Define { name, combine, body } => {
                assert forall|j: int| 0 <= j < body.len() implies has(#[trigger] body[j]) by {
                    assert(contained(body[j]));
                }
            },
            _ => {},
        }
    }
    lemma_merged_items(items, no_start, has);
    let (start, defs) = merged_items(items, no_start)->Ok_0;
    assert(has(start));
    assert forall|i: int| 0 <= i < defs.len() implies contained((#[trigger] defs[i]).1) by {
        assert(has(defs[i].1));
    }
}

/// Whether reduction went without a question to the resolver.
spec fn unasked<A>(r: Result<(A, StateModel), Stop>, feed: Feed) -> bool {
    match r {
        Ok((value, after)) => after.feed == feed,
        Err(stop) => stop is Some,
    }
}

/// A pattern that refers to no other schema is reduced without a question.
proof fn lemma_simple(p: PatternModel, place: PlaceModel, state: StateModel, depth: nat)
    requires
        contained(p),
    ensures
        unasked(simple(p, place, state, depth), state.feed),
    decreases depth, p, 0nat,
{
    match p {
        PatternModel::Ref(_) => {},
        PatternModel::ParentRef(_) => {},
        PatternModel::ExternalRef { .. } => {},
        PatternModel::Grammar(nested) => {
            lemma_simple_grammar(nested, place, state, depth);
        },
        _ => {
            if operands(p) is Some {
                let values = operands(p)->0;
                lemma_operands(p);
                lemma_all_simple(values, place, state, depth, values.len());
            }
        },
    }
}

/// A nested grammar that refers to no other schema is reduced without a question.
proof fn lemma_simple_grammar(
    nested: GrammarModel,
    place: PlaceModel,
    state: StateModel,
    depth: nat,
)
    requires
        all_items_contained(nested.items),
    ensures
        unasked(simple_grammar(nested, place, state, depth), state.feed),
    decreases depth, nested, 0nat,
{
    if depth > 0 {
        let below = (depth - 1) as nat;
        let n = nested.items.len();
        lemma_flat_items(nested.items, place.loading, state.feed, depth, n);
        let (items, rest) = flat_items(nested.items, place.loading, state.feed, depth, n)->Ok_0;
        match merged_items(items, "nested grammar has no start"@) {
            Ok((start, own)) => {
                lemma_merged(items, "nested grammar has no start"@);
                let inner = PlaceModel {
                    loading: place.loading,
                    scope: own,
                    parent: Some(place.scope),
                };
                let flat = StateModel { extra: Seq::empty(), feed: rest, ..state };
                lemma_simple(start, inner, flat, below);
                match simple(start, inner, flat, below) {
                    Ok((first, middle)) => {
                        lemma_simple_definitions(own, inner, middle, below, own.len());
                    },
                    Err(_) => {},
                }
            },
            Err(_) => {},
        }
    }
}

/// Patterns that refer to no other schema are reduced without a question.
proof fn lemma_all_simple(
    s: Seq<PatternModel>,
    place: PlaceModel,
    state: StateModel,
    depth: nat,
    n: nat,
)
    requires
        all_contained(s),
    ensures
        unasked(all_simple(s, place, state, depth, n), state.feed),
    decreases depth, s, n,
{
    if n == 0 || n > s.len() {
    } else {
        lemma_all_simple(s, place, state, depth, (n - 1) as nat);
        match all_simple(s, place, state, depth, (n - 1) as nat) {
            Ok((before, middle)) => {
                assert(contained(s[n - 1]));
                lemma_simple(s[n - 1], place, middle, depth);
            },
            Err(_) => {},
        }
    }
}

/// Named patterns that refer to no other schema are reduced without a question.
proof fn lemma_simple_definitions(
    defs: Defs,
    place: PlaceModel,
    state: StateModel,
    depth: nat,
    n: nat,
)
    requires
        forall|i: int| 0 <= i < defs.len() ==> contained((#[trigger] defs[i]).1),
    ensures
        unasked(simple_definitions(defs, place, state, depth, n), state.feed),
    decreases depth, defs, n,
{
    if n == 0 || n > defs.len() {
    } else {
        lemma_simple_definitions(defs, place, state, depth, (n - 1) as nat);
        match simple_definitions(defs, place, state, depth, (n - 1) as nat) {
            Ok((before, middle)) => {
                assert(contained(defs[n - 1].1));
                lemma_simple(defs[n - 1].1, place, middle, depth);
            },
            Err(_) => {},
        }
    }
}

/// Whether composition went without a question to the resolver: without exchanges it does
/// not stop for want of one, and exchanges are all left.
spec fn composed_alone(root: RootModel, feed: Feed, depth: nat) -> bool {
    let none = Seq::<Exchange>::empty();
    match root_schema(root, none, depth) {
        Ok((schema, rest)) => rest == none && root_schema(root, feed, depth) == Ok::<
            (SchemaModel, Feed),
            Stop,
        >((schema, feed)),
        Err(stop) => stop is Some && root_schema(root, feed, depth) == Err::<
            (SchemaModel, Feed),
            Stop,
        >(stop),
    }
}

/// A grammar that refers to no other schema is composed without a question.
proof fn lemma_grammar_alone(grammar: GrammarModel, feed: Feed, depth: nat)
    requires
        all_items_contained(grammar.items),
    ensures
        composed_alone(RootModel::Grammar(grammar), feed, depth),
{
    let none = Seq::<Exchange>::empty();
    let n = grammar.items.len();
    assert(none + feed =~= feed);
    lemma_flat_items(grammar.items, Seq::empty(), none, depth, n);
    lemma_flat_items_before(grammar.items, Seq::empty(), none, depth, n, feed);
    let (items, rest) = flat_items(grammar.items, Seq::empty(), none, depth, n)->Ok_0;
    match merged_items(items, "grammar has no start"@) {
        Ok((start, defs)) => {
            if recursion_problem(start, defs, depth) is None {
                lemma_merged(items, "grammar has no start"@);
                reveal(defined_schema);
                let place = PlaceModel { loading: Seq::empty(), scope: defs, parent: None };
                let initial = initial_state(none);
                assert(followed(initial, feed) =~= initial_state(feed));
                lemma_simple(start, place, initial, depth);
                lemma_simple_before(start, place, initial, depth, feed);
                match simple(start, place, initial, depth) {
                    Ok((first, middle)) => {
                        lemma_simple_definitions(defs, place, middle, depth, defs.len());
                        lemma_simple_definitions_before(
                            defs,
                            place,
                            middle,
                            depth,
                            defs.len(),
                            feed,
                        );
                    },
                    Err(_) => {},
                }
            }
        },
        Err(_) => {},
    }
}

/// The resolver has no part in a schema that refers to no other: it is composed, or refused,
/// without an exchange, and whatever exchanges explain an outcome, the outcome is that one.
pub proof fn law_self_contained_schema_needs_no_resolver(root: RootModel, log: Feed)
    requires
        root_contained(root),
    ensures
        compiled(root, Seq::empty()) != Err::<SchemaModel, Stop>(None),
        compiled(root, log) != Err::<SchemaModel, Stop>(None) ==> compiled(root, log) == compiled(
            root,
            Seq::empty(),
        ),
{
    let none = Seq::<Exchange>::empty();
    let depth = MAX_DEPTH as nat;
    match root {
        RootModel::Pattern(p) => {
            let place = PlaceModel {
                loading: Seq::empty(),
                scope: Seq::empty(),
                parent: None,
            };
            let initial = initial_state(none);
            assert(none + log =~= log);
            assert(followed(initial, log) =~= initial_state(log));
            lemma_simple(p, place, initial, depth);
            lemma_simple_before(p, place, initial, depth, log);
        },
        RootModel::Grammar(grammar) => {
            lemma_grammar_alone(grammar, log, depth);
        },
    }
    assert(composed_alone(root, log, depth));
}

} // verus!
