//! What a schema comes to depends on nothing but the schema and what the resolver answers:
//! where the resolver gives one answer to each question, there is one result.
use vstd::prelude::*;

use crate::compose::{
    all_simple, compiled, defined_schema, initial_state, lemma_operands, merged_items, operands,
    own_problem, simple, simple_definitions, simple_grammar, PlaceModel, StateModel,
};
use crate::derivative::{Defs, MAX_DEPTH};
use crate::grammar::{GrammarModel, ItemModel, PatternModel, RootModel};
use crate::recursion::recursion_problem;
use crate::resolver::{Answer, SchemaResolver};
use crate::simplify::{
    asked, consistent, flat_item, flat_items, reference_key, referred, Feed, SchemaModel, Stop,
};
use crate::text::Text;

verus! {

/// Whether a resolver gives one answer, at most, to each question.
pub open spec fn steadfast<R: SchemaResolver>(resolver: &R) -> bool {
    forall|href: Text, base_uri: Text, a: Answer, b: Answer| #[trigger]
        resolver.may_answer(href, base_uri, a) && #[trigger] resolver.may_answer(href, base_uri, b)
            ==> a == b
}

/// Whether two results are the same but for the exchanges that are left, which are the
/// resolver's.
spec fn alike<A, R: SchemaResolver>(
    resolver: &R,
    x: Result<(A, Feed), Stop>,
    y: Result<(A, Feed), Stop>,
) -> bool {
    match (x, y) {
        (Ok((a, left)), Ok((b, right))) => a == b && consistent(resolver, left) && consistent(
            resolver,
            right,
        ),
        (Err(a), Err(b)) => a == b,
        _ => false,
    }
}

/// Whether two states are the same but for the exchanges that are left, which are the
/// resolver's.
spec fn alike_states<R: SchemaResolver>(resolver: &R, x: StateModel, y: StateModel) -> bool {
    x.extra == y.extra && x.next_id == y.next_id && consistent(resolver, x.feed) && consistent(
        resolver,
        y.feed,
    )
}

/// Whether two results are the same but for the exchanges that are left, which are the
/// resolver's.
spec fn alike_composed<A, R: SchemaResolver>(
    resolver: &R,
    x: Result<(A, StateModel), Stop>,
    y: Result<(A, StateModel), Stop>,
) -> bool {
    match (x, y) {
        (Ok((a, left)), Ok((b, right))) => a == b && alike_states(resolver, left, right),
        (Err(a), Err(b)) => a == b,
        _ => false,
    }
}

/// Exchanges without the first are still the resolver's.
proof fn lemma_rest<R: SchemaResolver>(resolver: &R, feed: Feed)
    requires
        consistent(resolver, feed),
        feed.len() > 0,
    ensures
        consistent(resolver, feed.drop_first()),
{
    let rest = feed.drop_first();
    assert forall|i: int| 0 <= i < rest.len() implies resolver.may_answer(
        (#[trigger] rest[i]).href,
        rest[i].base_uri,
        rest[i].answer,
    ) by {
        assert(rest[i] == feed[i + 1]);
    }
}

/// A reference refers to the same by the exchanges of either log.
proof fn lemma_referred<R: SchemaResolver>(
    resolver: &R,
    x: Feed,
    y: Feed,
    href: Text,
    base_uri: Text,
)
    requires
        steadfast(resolver),
        consistent(resolver, x),
        consistent(resolver, y),
        asked(x, href, base_uri),
        asked(y, href, base_uri),
    ensures
        x[0].answer == y[0].answer,
        consistent(resolver, x.drop_first()),
        consistent(resolver, y.drop_first()),
{
    assert(resolver.may_answer(x[0].href, x[0].base_uri, x[0].answer));
    assert(resolver.may_answer(y[0].href, y[0].base_uri, y[0].answer));
    lemma_rest(resolver, x);
    lemma_rest(resolver, y);
}

/// A component stands for the same by either log.
proof fn lemma_flat_item<R: SchemaResolver>(
    resolver: &R,
    item: ItemModel,
    loading: Seq<Text>,
    x: Feed,
    y: Feed,
    depth: nat,
)
    requires
        steadfast(resolver),
        consistent(resolver, x),
        consistent(resolver, y),
        flat_item(item, loading, x, depth) != Err::<(Seq<ItemModel>, Feed), Stop>(None),
        flat_item(item, loading, y, depth) != Err::<(Seq<ItemModel>, Feed), Stop>(None),
    ensures
        alike(
            resolver,
            flat_item(item, loading, x, depth),
            flat_item(item, loading, y, depth),
        ),
    decreases depth, item, 0nat,
{
    match item {
        ItemModel::Div(children) => {
            lemma_flat_items(resolver, children, loading, x, y, depth, children.len());
        },
        ItemModel::Include { href, inherit_namespace, body, context } => {
            let key = reference_key(href, context.base_uri);
            if !loading.contains(key) && depth > 0 {
                assert(asked(x, href, context.base_uri));
                assert(asked(y, href, context.base_uri));
                lemma_referred(resolver, x, y, href, context.base_uri);
                assert(referred(x, href, context) == referred(y, href, context));
                match referred(x, href, context) {
                    Ok(RootModel::Grammar(grammar)) => {
                        let inside = loading.push(key);
                        let below = (depth - 1) as nat;
                        let n = grammar.items.len();
                        lemma_flat_items(
                            resolver,
                            grammar.items,
                            inside,
                            x.drop_first(),
                            y.drop_first(),
                            below,
                            n,
                        );
                        let first = flat_items(grammar.items, inside, x.drop_first(), below, n);
                        let second = flat_items(grammar.items, inside, y.drop_first(), below, n);
                        if first is Ok {
                            lemma_flat_items(
                                resolver,
                                body,
                                inside,
                                first->Ok_0.1,
                                second->Ok_0.1,
                                depth,
                                body.len(),
                            );
                        }
                    },
                    _ => {},
                }
            }
        },
        _ => {},
    }
}

/// Components stand for the same by either log.
proof fn lemma_flat_items<R: SchemaResolver>(
    resolver: &R,
    items: Seq<ItemModel>,
    loading: Seq<Text>,
    x: Feed,
    y: Feed,
    depth: nat,
    n: nat,
)
    requires
        steadfast(resolver),
        consistent(resolver, x),
        consistent(resolver, y),
        flat_items(items, loading, x, depth, n) != Err::<(Seq<ItemModel>, Feed), Stop>(None),
        flat_items(items, loading, y, depth, n) != Err::<(Seq<ItemModel>, Feed), Stop>(None),
    ensures
        alike(
            resolver,
            flat_items(items, loading, x, depth, n),
            flat_items(items, loading, y, depth, n),
        ),
    decreases depth, items, n,
{
    if n == 0 || n > items.len() {
    } else {
        let m = (n - 1) as nat;
        lemma_flat_items(resolver, items, loading, x, y, depth, m);
        let first = flat_items(items, loading, x, depth, m);
        let second = flat_items(items, loading, y, depth, m);
        if first is Ok {
            lemma_flat_item(
                resolver,
                items[n - 1],
                loading,
                first->Ok_0.1,
                second->Ok_0.1,
                depth,
            );
        }
    }
}

/// A pattern is reduced to the same by either log.
proof fn lemma_simple<R: SchemaResolver>(
    resolver: &R,
    p: PatternModel,
    place: PlaceModel,
    x: StateModel,
    y: StateModel,
    depth: nat,
)
    requires
        steadfast(resolver),
        alike_states(resolver, x, y),
        simple(p, place, x, depth) != Err::<(PatternModel, StateModel), Stop>(None),
        simple(p, place, y, depth) != Err::<(PatternModel, StateModel), Stop>(None),
    ensures
        alike_composed(
            resolver,
            simple(p, place, x, depth),
            simple(p, place, y, depth),
        ),
    decreases depth, p, 0nat,
{
    match p {
        PatternModel::Ref(_) => {},
        PatternModel::ParentRef(_) => {},
        PatternModel::ExternalRef { href, inherit_namespace, context } => {
            let key = reference_key(href, context.base_uri);
            if !place.loading.contains(key) && depth > 0 {
                assert(asked(x.feed, href, context.base_uri));
                assert(asked(y.feed, href, context.base_uri));
                lemma_referred(resolver, x.feed, y.feed, href, context.base_uri);
                assert(referred(x.feed, href, context) == referred(y.feed, href, context));
                match referred(x.feed, href, context) {
                    Ok(RootModel::Pattern(value)) => {
                        let inner = PlaceModel {
                            loading: place.loading.push(key),
                            scope: Seq::empty(),
                            parent: None,
                        };
                        lemma_simple(
                            resolver,
                            value,
                            inner,
                            StateModel { feed: x.feed.drop_first(), ..x },
                            StateModel { feed: y.feed.drop_first(), ..y },
                            (depth - 1) as nat,
                        );
                    },
                    _ => {},
                }
            }
        },
        PatternModel::Grammar(nested) => {
            lemma_simple_grammar(resolver, nested, place, x, y, depth);
        },
        _ => {
            if operands(p) is Some && own_problem(p) is None {
                let values = operands(p)->0;
                lemma_operands(p);
                lemma_all_simple(resolver, values, place, x, y, depth, values.len());
            }
        },
    }
}

/// A nested grammar is reduced to the same by either log.
proof fn lemma_simple_grammar<R: SchemaResolver>(
    resolver: &R,
    nested: GrammarModel,
    place: PlaceModel,
    x: StateModel,
    y: StateModel,
    depth: nat,
)
    requires
        steadfast(resolver),
        alike_states(resolver, x, y),
        simple_grammar(nested, place, x, depth) != Err::<(PatternModel, StateModel), Stop>(None),
        simple_grammar(nested, place, y, depth) != Err::<(PatternModel, StateModel), Stop>(None),
    ensures
        alike_composed(
            resolver,
            simple_grammar(nested, place, x, depth),
            simple_grammar(nested, place, y, depth),
        ),
    decreases depth, nested, 0nat,
{
    if depth > 0 {
        let below = (depth - 1) as nat;
        let n = nested.items.len();
        lemma_flat_items(resolver, nested.items, place.loading, x.feed, y.feed, depth, n);
        let first = flat_items(nested.items, place.loading, x.feed, depth, n);
        let second = flat_items(nested.items, place.loading, y.feed, depth, n);
        if first is Ok {
            let items = first->Ok_0.0;
            match merged_items(items, "nested grammar has no start"@) {
                Ok((start, own)) => {
                    let inner = PlaceModel {
                        loading: place.loading,
                        scope: own,
                        parent: Some(place.scope),
                    };
                    let left = StateModel { extra: Seq::empty(), feed: first->Ok_0.1, ..x };
                    let right = StateModel { extra: Seq::empty(), feed: second->Ok_0.1, ..y };
                    lemma_simple(resolver, start, inner, left, right, below);
                    let a = simple(start, inner, left, below);
                    let b = simple(start, inner, right, below);
                    if a is Ok {
                        lemma_simple_definitions(
                            resolver,
                            own,
                            inner,
                            a->Ok_0.1,
                            b->Ok_0.1,
                            below,
                            own.len(),
                        );
                    }
                },
                Err(_) => {},
            }
        }
    }
}

/// Patterns are reduced to the same by either log.
proof fn lemma_all_simple<R: SchemaResolver>(
    resolver: &R,
    s: Seq<PatternModel>,
    place: PlaceModel,
    x: StateModel,
    y: StateModel,
    depth: nat,
    n: nat,
)
    requires
        steadfast(resolver),
        alike_states(resolver, x, y),
        all_simple(s, place, x, depth, n) != Err::<(Seq<PatternModel>, StateModel), Stop>(None),
        all_simple(s, place, y, depth, n) != Err::<(Seq<PatternModel>, StateModel), Stop>(None),
    ensures
        alike_composed(
            resolver,
            all_simple(s, place, x, depth, n),
            all_simple(s, place, y, depth, n),
        ),
    decreases depth, s, n,
{
    if n == 0 || n > s.len() {
    } else {
        let m = (n - 1) as nat;
        lemma_all_simple(resolver, s, place, x, y, depth, m);
        let first = all_simple(s, place, x, depth, m);
        let second = all_simple(s, place, y, depth, m);
        if first is Ok {
            lemma_simple(
                resolver,
                s[n - 1],
                place,
                first->Ok_0.1,
                second->Ok_0.1,
                depth,
            );
        }
    }
}

/// Named patterns are reduced to the same by either log.
proof fn lemma_simple_definitions<R: SchemaResolver>(
    resolver: &R,
    defs: Defs,
    place: PlaceModel,
    x: StateModel,
    y: StateModel,
    depth: nat,
    n: nat,
)
    requires
        steadfast(resolver),
        alike_states(resolver, x, y),
        simple_definitions(defs, place, x, depth, n) != Err::<(Defs, StateModel), Stop>(None),
        simple_definitions(defs, place, y, depth, n) != Err::<(Defs, StateModel), Stop>(None),
    ensures
        alike_composed(
            resolver,
            simple_definitions(defs, place, x, depth, n),
            simple_definitions(defs, place, y, depth, n),
        ),
    decreases depth, defs, n,
{
    if n == 0 || n > defs.len() {
    } else {
        let m = (n - 1) as nat;
        lemma_simple_definitions(resolver, defs, place, x, y, depth, m);
        let first = simple_definitions(defs, place, x, depth, m);
        let second = simple_definitions(defs, place, y, depth, m);
        if first is Ok {
            lemma_simple(
                resolver,
                defs[n - 1].1,
                place,
                first->Ok_0.1,
                second->Ok_0.1,
                depth,
            );
        }
    }
}

/// Where a resolver gives one answer to each question, a schema compiles to one result:
/// any two logs of exchanges with it that answer all questions, and no others, give the
/// same schema or the same complaint.
pub proof fn law_answers_determine_the_result<R: SchemaResolver>(
    resolver: &R,
    root: RootModel,
    x: Feed,
    y: Feed,
)
    requires
        steadfast(resolver),
        consistent(resolver, x),
        consistent(resolver, y),
        compiled(root, x) != Err::<SchemaModel, Stop>(None),
        compiled(root, y) != Err::<SchemaModel, Stop>(None),
    ensures
        compiled(root, x) == compiled(root, y),
{
    let depth = MAX_DEPTH as nat;
    match root {
        RootModel::Pattern(p) => {
            let place = PlaceModel {
                loading: Seq::empty(),
                scope: Seq::empty(),
                parent: None,
            };
            lemma_simple(resolver, p, place, initial_state(x), initial_state(y), depth);
        },
        RootModel::Grammar(grammar) => {
            reveal(defined_schema);
            let n = grammar.items.len();
            lemma_flat_items(resolver, grammar.items, Seq::empty(), x, y, depth, n);
            let first = flat_items(grammar.items, Seq::empty(), x, depth, n);
            let second = flat_items(grammar.items, Seq::empty(), y, depth, n);
            if first is Ok {
                match merged_items(first->Ok_0.0, "grammar has no start"@) {
                    Ok((start, defs)) => {
                        if recursion_problem(start, defs, depth) is None {
                            let place = PlaceModel {
                                loading: Seq::empty(),
                                scope: defs,
                                parent: None,
                            };
                            let left = initial_state(first->Ok_0.1);
                            let right = initial_state(second->Ok_0.1);
                            lemma_simple(resolver, start, place, left, right, depth);
                            let a = simple(start, place, left, depth);
                            let b = simple(start, place, right, depth);
                            if a is Ok {
                                lemma_simple_definitions(
                                    resolver,
                                    defs,
                                    place,
                                    a->Ok_0.1,
                                    b->Ok_0.1,
                                    depth,
                                    defs.len(),
                                );
                            }
                        }
                    },
                    Err(_) => {},
                }
            }
        },
    }
}

} // verus!
