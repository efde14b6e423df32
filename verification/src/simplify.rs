//! Composed schemas, and the first step of composition: references between grammars
//! resolved, so that a grammar is a plain list of starts and definitions.
use vstd::prelude::*;

use crate::derivative::{Definitions, Defs};
use crate::grammar::{
    copy_item, copy_pattern, items_of, ContextModel, GrammarItem, ItemModel, Pattern, PatternModel,
    Root, RootModel, SchemaDocument,
};
use crate::resolver::{answer_of, Answer, SchemaResolver};
use crate::string_map::Duplicate;
use crate::syntax::{parse_with_inherited_ns, schema_of};
use crate::text::{concat3, copy_opt, copy_strings, holds, opt_text, same, texts, Text};

verus! {

/// A schema after composition: references to other schemas and combined definitions
/// resolved, nested grammars flattened, every pattern reduced to the handful of forms
/// that the validator derives. Produced by [`crate::simplify`]; pass it to [`crate::validate`]
/// to check documents against it.
#[derive(Debug)]
pub struct CompiledSchema {
    /// What a document may start with.
    pub start: Pattern,
    /// The named patterns.
    pub definitions: Definitions,
}

/// The model of a [`CompiledSchema`].
#[verifier::ext_equal]
pub struct SchemaModel {
    pub start: PatternModel,
    pub definitions: Defs,
}

impl View for CompiledSchema {
    type V = SchemaModel;

    open spec fn view(&self) -> SchemaModel {
        SchemaModel { start: self.start@, definitions: self.definitions@ }
    }
}

impl Clone for CompiledSchema {
    fn clone(&self) -> (r: Self)
        ensures
            r@ == self@,
    {
        CompiledSchema {
            start: copy_pattern(&self.start),
            definitions: self.definitions.duplicate(),
        }
    }
}

impl CompiledSchema {
    /// How many named `define`s survived composition.
    pub fn definition_count(&self) -> (r: usize)
        ensures
            r == self@.definitions.len(),
    {
        self.definitions.len()
    }

    /// Whether this schema's `start` pattern can match anything at all (`false` only for a
    /// schema that is valid but pointless: its `start` came down to `notAllowed`).
    pub fn has_start(&self) -> (r: bool)
        ensures
            r == !(self@.start is NotAllowed),
    {
        !matches!(self.start, Pattern::NotAllowed)
    }
}

/// A schema parsed without error but invalid once composed: an undefined `ref`,
/// illegal recursion, a duplicate `define` with inconsistent `combine`, a restriction
/// violation, and so on.
#[derive(Clone, Debug, PartialEq, Eq)]
pub struct SchemaError {
    message: String,
}

impl View for SchemaError {
    type V = Text;

    closed spec fn view(&self) -> Text {
        self.message@
    }
}

impl SchemaError {
    /// The error with the given message.
    pub fn new(message: &str) -> (r: Self)
        ensures
            r@ == message@,
    {
        SchemaError { message: message.to_owned() }
    }

    /// The error with the given message.
    pub fn from_string(message: String) -> (r: Self)
        ensures
            r@ == message@,
    {
        SchemaError { message }
    }

    /// The error's message.
    pub fn to_string(&self) -> (r: String)
        ensures
            r@ == self@,
    {
        self.message.clone()
    }
}

/// The message of a failed check; `None` where it passed.
pub open spec fn verdict(r: Result<(), SchemaError>) -> Option<Text> {
    match r {
        Ok(_) => None,
        Err(error) => Some(error@),
    }
}

// ---------------------------------------------------------------------
// Questions to the resolver
// ---------------------------------------------------------------------

/// A question to the resolver, and its answer.
#[verifier::ext_equal]
pub struct Exchange {
    pub href: Text,
    pub base_uri: Text,
    pub answer: Answer,
}

/// The exchanges with the resolver, in order.
pub type Feed = Seq<Exchange>;

/// Why composition stopped: the message of a complaint, or none where the exchanges do not
/// answer the questions that come up.
pub type Stop = Option<Text>;

/// Whether every answer is one that the resolver may give.
pub open spec fn consistent<R: SchemaResolver>(resolver: &R, log: Feed) -> bool {
    forall|i: int|
        0 <= i < log.len() ==> resolver.may_answer(
            (#[trigger] log[i]).href,
            log[i].base_uri,
            log[i].answer,
        )
}

/// Whether the next exchange is about the reference.
pub open spec fn asked(feed: Feed, href: Text, base_uri: Text) -> bool {
    feed.len() > 0 && feed[0].href == href && feed[0].base_uri == base_uri
}

/// What a reference refers to, by the next exchange: what the schema says that the resolver
/// answers with, where the namespace in force is inherited.
pub open spec fn referred(feed: Feed, href: Text, context: ContextModel) -> Result<
    RootModel,
    Stop,
> {
    if !asked(feed, href, context.base_uri) {
        Err(None)
    } else {
        match feed[0].answer {
            Err(message) => Err(Some(message)),
            Ok(source) => match schema_of(source, context.ns) {
                Err(message) => Err(Some(message)),
                Ok(root) => Ok(root),
            },
        }
    }
}

/// What identifies a reference while what it refers to is being loaded.
pub open spec fn reference_key(href: Text, base_uri: Text) -> Text {
    base_uri + "::"@ + href
}

/// The complaint about references nested too deep to follow.
pub open spec fn depth_complaint() -> Text {
    "schema references are nested too deep"@
}

/// Asks the resolver for what a reference refers to, and parses it.
pub fn load<R: SchemaResolver>(
    href: &str,
    base_uri: &str,
    ns: &Option<String>,
    resolver: &R,
) -> (r: (Result<SchemaDocument, SchemaError>, Ghost<Exchange>))
    ensures
        resolver.may_answer(href@, base_uri@, r.1@.answer),
        r.1@.href == href@,
        r.1@.base_uri == base_uri@,
        composed(r.0) == (match r.1@.answer {
            Err(message) => Err(message),
            Ok(source) => schema_of(source, opt_text(*ns)),
        }),
{
    let answer = resolver.resolve(href, base_uri);
    let ghost exchange = Exchange { href: href@, base_uri: base_uri@, answer: answer_of(answer) };
    let result = match answer {
        Err(error) => Err(SchemaError::from_string(error.to_string())),
        Ok(source) => match parse_with_inherited_ns(&source, copy_opt(ns)) {
            Err(error) => Err(SchemaError::from_string(error.to_string())),
            Ok(document) => Ok(document),
        },
    };
    (result, Ghost(exchange))
}

/// The model of a result.
pub open spec fn composed<T: View>(r: Result<T, SchemaError>) -> Result<T::V, Text> {
    match r {
        Ok(value) => Ok(value@),
        Err(error) => Err(error@),
    }
}

// ---------------------------------------------------------------------
// Grammar components
// ---------------------------------------------------------------------

/// Whether a component is a start.
pub open spec fn starts(item: ItemModel) -> bool {
    item is Start
}

/// Whether a component defines a name.
pub open spec fn defines(item: ItemModel, name: Text) -> bool {
    item matches ItemModel::Define { name: n, combine, body } && n == name
}

/// Whether some component is a start.
pub open spec fn some_start(items: Seq<ItemModel>) -> bool {
    exists|i: int| 0 <= i < items.len() && starts(#[trigger] items[i])
}

/// Whether some component defines a name.
pub open spec fn some_define(items: Seq<ItemModel>, name: Text) -> bool {
    exists|i: int| 0 <= i < items.len() && defines(#[trigger] items[i], name)
}

/// The complaint about the first `n` overrides of what a grammar does not have.
pub open spec fn override_problem(
    included: Seq<ItemModel>,
    overriding: Seq<ItemModel>,
    n: nat,
) -> Option<Text>
    decreases n,
{
    if n == 0 || n > overriding.len() {
        None
    } else {
        match override_problem(included, overriding, (n - 1) as nat) {
            Some(message) => Some(message),
            None => match overriding[n - 1] {
                ItemModel::Start { combine, body } => if some_start(included) {
                    None
                } else {
                    Some(
                        "RELAX NG §4.7: include overrides `start`, but the included grammar has none"@,
                    )
                },
                ItemModel::Define { name, combine, body } => if some_define(included, name) {
                    None
                } else {
                    Some(
                        "RELAX NG §4.7: include overrides `define name=\""@ + name
                            + "\"`, but the included grammar has no such define"@,
                    )
                },
                _ => None,
            },
        }
    }
}

/// Whether a component is overridden: a start by any start, and a definition by any of the
/// same name.
pub open spec fn overridden(item: ItemModel, overriding: Seq<ItemModel>) -> bool {
    match item {
        ItemModel::Start { combine, body } => some_start(overriding),
        ItemModel::Define { name, combine, body } => some_define(overriding, name),
        _ => false,
    }
}

/// The first `n` components without those that are overridden.
pub open spec fn not_overridden(
    included: Seq<ItemModel>,
    overriding: Seq<ItemModel>,
    n: nat,
) -> Seq<ItemModel>
    decreases n,
{
    if n == 0 || n > included.len() {
        Seq::empty()
    } else {
        let rest = not_overridden(included, overriding, (n - 1) as nat);
        if overridden(included[n - 1], overriding) {
            rest
        } else {
            rest.push(included[n - 1])
        }
    }
}

/// What an inclusion defines itself replaces what the included grammar defines under the
/// same name, a start that it gives replaces the included start, and everything else of the
/// included grammar stays.
pub proof fn law_overrides_replace(
    included: Seq<ItemModel>,
    overriding: Seq<ItemModel>,
    item: ItemModel,
    n: nat,
)
    requires
        n <= included.len(),
    ensures
        not_overridden(included, overriding, n).contains(item) <==> included.take(
            n as int,
        ).contains(item) && !(item is Start && some_start(overriding)) && !(
        item matches ItemModel::Define { name, combine, body } && some_define(overriding, name)),
    decreases n,
{
    let kept = not_overridden(included, overriding, n);
    let all = included.take(n as int);
    if n > 0 {
        let m = (n - 1) as nat;
        law_overrides_replace(included, overriding, item, m);
        let before = not_overridden(included, overriding, m);
        let front = included.take(m as int);
        assert(all =~= front.push(included[n - 1]));
        if front.contains(item) {
            let i = choose|i: int| 0 <= i < front.len() && front[i] == item;
            assert(all[i] == item);
        }
        if all.contains(item) {
            let i = choose|i: int| 0 <= i < all.len() && all[i] == item;
            if i < m {
                assert(front[i] == item);
            }
        }
        if all.last() == item {
            assert(all.contains(item));
        }
        if before.contains(item) {
            let i = choose|i: int| 0 <= i < before.len() && before[i] == item;
            assert(kept[i] == item);
        }
        if kept.contains(item) {
            let i = choose|i: int| 0 <= i < kept.len() && kept[i] == item;
            if i < before.len() {
                assert(before[i] == item);
            }
        }
        if kept.len() > before.len() {
            assert(kept.last() == included[n - 1]);
            assert(kept.contains(included[n - 1]));
        }
    }
}

/// The components that a component stands for: those inside a `div`, and those of the
/// grammar that an inclusion refers to, overridden.
pub open spec fn flat_item(item: ItemModel, loading: Seq<Text>, feed: Feed, depth: nat) -> Result<
    (Seq<ItemModel>, Feed),
    Stop,
>
    decreases depth, item, 0nat,
{
    match item {
        ItemModel::Div(children) => flat_items(children, loading, feed, depth, children.len()),
        ItemModel::Include { href, inherit_namespace, body, context } => {
            let key = reference_key(href, context.base_uri);
            if loading.contains(key) {
                Err(Some("include cycle"@))
            } else if depth == 0 {
                Err(Some(depth_complaint()))
            } else {
                match referred(feed, href, context) {
                    Err(stop) => Err(stop),
                    Ok(RootModel::Pattern(_)) => Err(Some("include must resolve to a grammar"@)),
                    Ok(RootModel::Grammar(grammar)) => match flat_items(
                        grammar.items,
                        loading.push(key),
                        feed.drop_first(),
                        (depth - 1) as nat,
                        grammar.items.len(),
                    ) {
                        Err(stop) => Err(stop),
                        Ok((included, middle)) => match flat_items(
                            body,
                            loading.push(key),
                            middle,
                            depth,
                            body.len(),
                        ) {
                            Err(stop) => Err(stop),
                            Ok((overriding, rest)) => match override_problem(
                                included,
                                overriding,
                                overriding.len(),
                            ) {
                                Some(message) => Err(Some(message)),
                                None => Ok(
                                    (
                                        not_overridden(included, overriding, included.len())
                                            + overriding,
                                        rest,
                                    ),
                                ),
                            },
                        },
                    },
                }
            }
        },
        _ => Ok((seq![item], feed)),
    }
}

/// The components that the first `n` components stand for.
pub open spec fn flat_items(
    items: Seq<ItemModel>,
    loading: Seq<Text>,
    feed: Feed,
    depth: nat,
    n: nat,
) -> Result<(Seq<ItemModel>, Feed), Stop>
    decreases depth, items, n,
{
    if n == 0 || n > items.len() {
        Ok((Seq::empty(), feed))
    } else {
        match flat_items(items, loading, feed, depth, (n - 1) as nat) {
            Err(stop) => Err(stop),
            Ok((before, middle)) => match flat_item(items[n - 1], loading, middle, depth) {
                Err(stop) => Err(stop),
                Ok((more, rest)) => Ok((before + more, rest)),
            },
        }
    }
}

/// What a result comes to, where all exchanges were needed.
pub open spec fn flattened(r: Result<Vec<GrammarItem>, SchemaError>) -> Result<
    (Seq<ItemModel>, Feed),
    Stop,
> {
    match r {
        Ok(out) => Ok((items_of(out@), Seq::empty())),
        Err(error) => Err(Some(error@)),
    }
}

/// A result with exchanges after those that are left.
pub open spec fn flat_before(r: Result<(Seq<ItemModel>, Feed), Stop>, rest: Feed) -> Result<
    (Seq<ItemModel>, Feed),
    Stop,
> {
    match r {
        Ok((items, left)) => Ok((items, left + rest)),
        Err(stop) => Err(stop),
    }
}

/// What a component stands for does not depend on exchanges after those that it needs.
pub proof fn lemma_flat_item_before(
    item: ItemModel,
    loading: Seq<Text>,
    feed: Feed,
    depth: nat,
    rest: Feed,
)
    requires
        flat_item(item, loading, feed, depth) != Err::<(Seq<ItemModel>, Feed), Stop>(None),
    ensures
        flat_item(item, loading, feed + rest, depth) == flat_before(
            flat_item(item, loading, feed, depth),
            rest,
        ),
    decreases depth, item, 0nat,
{
    match item {
        ItemModel::Div(children) => {
            lemma_flat_items_before(children, loading, feed, depth, children.len(), rest);
        },
        ItemModel::Include { href, inherit_namespace, body, context } => {
            let key = reference_key(href, context.base_uri);
            if !loading.contains(key) && depth > 0 {
                assert(asked(feed, href, context.base_uri));
                assert((feed + rest)[0] == feed[0]);
                assert((feed + rest).drop_first() =~= feed.drop_first() + rest);
                match referred(feed, href, context) {
                    Ok(RootModel::Grammar(grammar)) => {
                        let inside = loading.push(key);
                        let below = (depth - 1) as nat;
                        lemma_flat_items_before(
                            grammar.items,
                            inside,
                            feed.drop_first(),
                            below,
                            grammar.items.len(),
                            rest,
                        );
                        match flat_items(
                            grammar.items,
                            inside,
                            feed.drop_first(),
                            below,
                            grammar.items.len(),
                        ) {
                            Ok((included, middle)) => {
                                lemma_flat_items_before(
                                    body,
                                    inside,
                                    middle,
                                    depth,
                                    body.len(),
                                    rest,
                                );
                            },
                            Err(_) => {},
                        }
                    },
                    _ => {},
                }
            }
        },
        _ => {},
    }
}

/// What components stand for does not depend on exchanges after those that they need.
pub proof fn lemma_flat_items_before(
    items: Seq<ItemModel>,
    loading: Seq<Text>,
    feed: Feed,
    depth: nat,
    n: nat,
    rest: Feed,
)
    requires
        flat_items(items, loading, feed, depth, n) != Err::<(Seq<ItemModel>, Feed), Stop>(None),
    ensures
        flat_items(items, loading, feed + rest, depth, n) == flat_before(
            flat_items(items, loading, feed, depth, n),
            rest,
        ),
    decreases depth, items, n,
{
    if n == 0 || n > items.len() {
    } else {
        lemma_flat_items_before(items, loading, feed, depth, (n - 1) as nat, rest);
        match flat_items(items, loading, feed, depth, (n - 1) as nat) {
            Ok((before, middle)) => {
                lemma_flat_item_before(items[n - 1], loading, middle, depth, rest);
            },
            Err(_) => {},
        }
    }
}

/// Whether some component is a start.
fn has_start_item(items: &Vec<GrammarItem>) -> (r: bool)
    ensures
        r == some_start(items_of(items@)),
{
    let mut i: usize = 0;
    while i < items.len()
        invariant
            i <= items.len(),
            forall|j: int| 0 <= j < i ==> !starts(#[trigger] items_of(items@)[j]),
        decreases items.len() - i,
    {
        proof {
            items@[i as int].lemma_model();
        }
        if matches!(&items[i], GrammarItem::Start { .. }) {
            assert(starts(items_of(items@)[i as int]));
            return true;
        }
        i += 1;
    }
    false
}

/// Whether some component defines a name.
fn has_define_item(items: &Vec<GrammarItem>, name: &str) -> (r: bool)
    ensures
        r == some_define(items_of(items@), name@),
{
    let mut i: usize = 0;
    while i < items.len()
        invariant
            i <= items.len(),
            forall|j: int| 0 <= j < i ==> !defines(#[trigger] items_of(items@)[j], name@),
        decreases items.len() - i,
    {
        proof {
            items@[i as int].lemma_model();
        }
        match &items[i] {
            GrammarItem::Define { name: defined, combine, body } => {
                if same(defined.as_str(), name) {
                    assert(defines(items_of(items@)[i as int], name@));
                    return true;
                }
            },
            _ => {},
        }
        i += 1;
    }
    false
}

/// Checks that overrides override only what the grammar has; see [`override_problem`].
fn check_include_overrides_exist(included: &Vec<GrammarItem>, overriding: &Vec<GrammarItem>) -> (r:
    Result<(), SchemaError>)
    ensures
        verdict(r) == override_problem(
            items_of(included@),
            items_of(overriding@),
            overriding@.len(),
        ),
{
    let ghost inner = items_of(included@);
    let ghost outer = items_of(overriding@);
    let has_start = has_start_item(included);
    let mut i: usize = 0;
    while i < overriding.len()
        invariant
            i <= overriding.len(),
            inner == items_of(included@),
            outer == items_of(overriding@),
            has_start == some_start(inner),
            override_problem(inner, outer, i as nat) is None,
        decreases overriding.len() - i,
    {
        proof {
            overriding@[i as int].lemma_model();
        }
        match &overriding[i] {
            GrammarItem::Start { combine, body } => {
                if !has_start {
                    proof {
                        lemma_override_first(inner, outer, (i + 1) as nat);
                    }
                    return Err(
                        SchemaError::new(
                            "RELAX NG §4.7: include overrides `start`, but the included grammar has none",
                        ),
                    );
                }
            },
            GrammarItem::Define { name, combine, body } => {
                if !has_define_item(included, name.as_str()) {
                    proof {
                        lemma_override_first(inner, outer, (i + 1) as nat);
                    }
                    return Err(
                        SchemaError::from_string(
                            concat3(
                                "RELAX NG §4.7: include overrides `define name=\"",
                                name.as_str(),
                                "\"`, but the included grammar has no such define",
                            ),
                        ),
                    );
                }
            },
            _ => {},
        }
        i += 1;
    }
    Ok(())
}

/// The first complaint of a prefix is that of all.
proof fn lemma_override_first(included: Seq<ItemModel>, overriding: Seq<ItemModel>, n: nat)
    requires
        n <= overriding.len(),
        override_problem(included, overriding, n) is Some,
    ensures
        override_problem(included, overriding, overriding.len()) == override_problem(
            included,
            overriding,
            n,
        ),
    decreases overriding.len() - n,
{
    if n < overriding.len() {
        lemma_override_first(included, overriding, n + 1);
    }
}

/// The components without those that are overridden, and then the overrides.
fn apply_overrides(included: Vec<GrammarItem>, overriding: Vec<GrammarItem>) -> (r: Vec<
    GrammarItem,
>)
    ensures
        items_of(r@) == not_overridden(
            items_of(included@),
            items_of(overriding@),
            included@.len(),
        ) + items_of(overriding@),
{
    let ghost inner = items_of(included@);
    let ghost outer = items_of(overriding@);
    let replaces_start = has_start_item(&overriding);
    let mut out: Vec<GrammarItem> = Vec::new();
    let mut i: usize = 0;
    assert(items_of(out@) =~= Seq::<ItemModel>::empty());
    while i < included.len()
        invariant
            i <= included.len(),
            inner == items_of(included@),
            outer == items_of(overriding@),
            replaces_start == some_start(outer),
            items_of(out@) == not_overridden(inner, outer, i as nat),
        decreases included.len() - i,
    {
        proof {
            included@[i as int].lemma_model();
        }
        let keep = match &included[i] {
            GrammarItem::Start { combine, body } => !replaces_start,
            GrammarItem::Define { name, combine, body } => !has_define_item(
                &overriding,
                name.as_str(),
            ),
            _ => true,
        };
        if keep {
            let copy = copy_item(&included[i]);
            let ghost before = items_of(out@);
            out.push(copy);
            assert(items_of(out@) =~= before.push(copy@));
        }
        i += 1;
    }
    append_items(&mut out, overriding);
    out
}

/// Appends components.
fn append_items(out: &mut Vec<GrammarItem>, more: Vec<GrammarItem>)
    ensures
        items_of(final(out)@) == items_of(old(out)@) + items_of(more@),
{
    let ghost before = items_of(out@);
    let mut rest = more;
    out.append(&mut rest);
    assert(items_of(out@) =~= before + items_of(more@));
}

/// Resolves a component; see [`flat_item`].
fn flatten_item<R: SchemaResolver>(
    item: &GrammarItem,
    resolver: &R,
    loading: &Vec<String>,
    depth: u64,
) -> (r: (Result<Vec<GrammarItem>, SchemaError>, Ghost<Feed>))
    ensures
        consistent(resolver, r.1@),
        flat_item(item@, texts(loading@), r.1@, depth as nat) == flattened(r.0),
    decreases depth, item,
{
    proof {
        item.lemma_model();
    }
    let ghost none: Feed = Seq::empty();
    let ghost outer = texts(loading@);
    match item {
        GrammarItem::Div(children) => flatten_items(children, resolver, loading, depth),
        GrammarItem::Include { href, inherit_namespace, body, context } => {
            let key = concat3(context.base_uri.as_str(), "::", href.as_str());
            if holds(loading, key.as_str()) {
                return (Err(SchemaError::new("include cycle")), Ghost(none));
            }
            if depth == 0 {
                return (Err(SchemaError::new("schema references are nested too deep")), Ghost(none));
            }
            let mut inside = copy_strings(loading);
            inside.push(key);
            let ghost within = outer.push(key@);
            assert(texts(inside@) =~= within);
            let (loaded, exchange) = load(
                href.as_str(),
                context.base_uri.as_str(),
                &context.ns,
                resolver,
            );
            let ghost first: Feed = seq![exchange@];
            let document = match loaded {
                Err(error) => {
                    return (Err(error), Ghost(first));
                },
                Ok(document) => document,
            };
            let grammar = match document.root {
                Root::Pattern(_) => {
                    return (
                        Err(SchemaError::new("include must resolve to a grammar")),
                        Ghost(first),
                    );
                },
                Root::Grammar(grammar) => grammar,
            };
            proof {
                grammar.lemma_model();
            }
            let (included, second) = flatten_items(&grammar.items, resolver, &inside, depth - 1);
            let ghost two = first + second@;
            assert(two.drop_first() =~= second@);
            let included = match included {
                Err(error) => {
                    return (Err(error), Ghost(two));
                },
                Ok(included) => included,
            };
            let (overriding, third) = flatten_items(body, resolver, &inside, depth);
            let ghost three = two + third@;
            proof {
                assert(three.drop_first() =~= second@ + third@);
                lemma_flat_items_before(
                    items_of(grammar.items@),
                    within,
                    second@,
                    (depth - 1) as nat,
                    grammar.items@.len(),
                    third@,
                );
                assert(none + third@ =~= third@);
            }
            let overriding = match overriding {
                Err(error) => {
                    return (Err(error), Ghost(three));
                },
                Ok(overriding) => overriding,
            };
            match check_include_overrides_exist(&included, &overriding) {
                Err(error) => (Err(error), Ghost(three)),
                Ok(_) => (Ok(apply_overrides(included, overriding)), Ghost(three)),
            }
        },
        _ => {
            let copy = copy_item(item);
            let out = vec![copy];
            assert(items_of(out@) =~= seq![item@]);
            (Ok(out), Ghost(none))
        },
    }
}

/// Resolves components; see [`flat_items`].
pub fn flatten_items<R: SchemaResolver>(
    items: &Vec<GrammarItem>,
    resolver: &R,
    loading: &Vec<String>,
    depth: u64,
) -> (r: (Result<Vec<GrammarItem>, SchemaError>, Ghost<Feed>))
    ensures
        consistent(resolver, r.1@),
        flat_items(items_of(items@), texts(loading@), r.1@, depth as nat, items@.len())
            == flattened(r.0),
    decreases depth, items,
{
    let ghost models = items_of(items@);
    let ghost outer = texts(loading@);
    let ghost none: Feed = Seq::empty();
    let ghost mut log: Feed = Seq::empty();
    let mut out: Vec<GrammarItem> = Vec::new();
    let mut i: usize = 0;
    assert(items_of(out@) =~= Seq::<ItemModel>::empty());
    while i < items.len()
        invariant
            i <= items.len(),
            models == items_of(items@),
            outer == texts(loading@),
            none == Seq::<Exchange>::empty(),
            consistent(resolver, log),
            flat_items(models, outer, log, depth as nat, i as nat) == Ok::<
                (Seq<ItemModel>, Feed),
                Stop,
            >((items_of(out@), none)),
        decreases items.len() - i,
    {
        let (result, more) = flatten_item(&items[i], resolver, loading, depth);
        proof {
            lemma_flat_items_before(models, outer, log, depth as nat, i as nat, more@);
            assert(none + more@ =~= more@);
            log = log + more@;
        }
        match result {
            Err(error) => {
                proof {
                    lemma_flat_items_first(models, outer, log, depth as nat, (i + 1) as nat);
                }
                return (Err(error), Ghost(log));
            },
            Ok(value) => {
                append_items(&mut out, value);
            },
        }
        i += 1;
    }
    (Ok(out), Ghost(log))
}

/// The first error of a prefix is that of all.
proof fn lemma_flat_items_first(
    items: Seq<ItemModel>,
    loading: Seq<Text>,
    feed: Feed,
    depth: nat,
    n: nat,
)
    requires
        n <= items.len(),
        flat_items(items, loading, feed, depth, n) is Err,
    ensures
        flat_items(items, loading, feed, depth, items.len()) == flat_items(
            items,
            loading,
            feed,
            depth,
            n,
        ),
    decreases items.len() - n,
{
    if n < items.len() {
        lemma_flat_items_first(items, loading, feed, depth, n + 1);
    }
}

} // verus!
