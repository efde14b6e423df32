//! Composition of a parsed schema into the form that documents are validated against.
use vstd::prelude::*;

use crate::algebra::{
    choice, choice_of, drop_not_allowed, group, group_of, interleave, interleave_of,
    is_not_allowed, one_or_more, one_or_more_of, pair, single, without,
};
use crate::derivative::{Definitions, Defs, MAX_DEPTH};
use crate::grammar::{
    copy_name, copy_params, copy_pattern, copy_patterns, items_of, patterns_of, Combine, Context,
    Grammar, GrammarItem, GrammarModel, ItemModel, Pattern, PatternModel, Root,
    RootModel, SchemaDocument,
};
use crate::name_class::{
    attribute_name_problem, check_attribute_name_class_constraints, check_name_class_constraints,
    name_problem,
};
use crate::numbers::{decimal, to_decimal};
use crate::recursion::{
    check_illegal_recursion, collect_reachable_defines, reached, recursion_problem, Names,
};
use crate::resolver::SchemaResolver;
use crate::restrictions::{
    builtin_problem, check_builtin_datatype_constraints, check_group_restrictions,
    check_restrictions, check_start_restrictions, groups_problem, inside_nothing, restrict,
    start_problem, Inside, Passed, RestrictionScope,
};
use crate::simplify::{
    asked, consistent, depth_complaint, flat_items, flatten_items, lemma_flat_items_before, load,
    reference_key, referred, verdict, CompiledSchema, Exchange, Feed, SchemaError, SchemaModel,
    Stop,
};
use crate::string_map::{
    has_key, inserted, lemma_inserted_entries, lemma_lookup_index, lookup, Duplicate, StringMap,
};
use crate::text::{concat3, copy_opt, copy_strings, holds, texts, Text};

verus! {

// ---------------------------------------------------------------------
// Fragments of definitions
// ---------------------------------------------------------------------

/// One of the definitions that make up a start or a named pattern.
pub struct Fragment {
    combine: Option<Combine>,
    body: Vec<Pattern>,
}

/// The model of a [`Fragment`].
#[verifier::ext_equal]
pub struct FragmentModel {
    pub combine: Option<Combine>,
    pub body: Seq<PatternModel>,
}

impl View for Fragment {
    type V = FragmentModel;

    closed spec fn view(&self) -> FragmentModel {
        FragmentModel { combine: self.combine, body: patterns_of(self.body@) }
    }
}

/// The definitions that make up a start or a named pattern, in order.
pub struct Fragments {
    list: Vec<Fragment>,
}

/// The models of fragments.
pub open spec fn fragments_of(s: Seq<Fragment>) -> Seq<FragmentModel> {
    Seq::new(s.len(), |i: int| s[i]@)
}

impl View for Fragments {
    type V = Seq<FragmentModel>;

    closed spec fn view(&self) -> Seq<FragmentModel> {
        fragments_of(self.list@)
    }
}

impl Fragments {
    /// No fragments.
    fn new() -> (r: Self)
        ensures
            r@ == Seq::<FragmentModel>::empty(),
    {
        let r = Fragments { list: Vec::new() };
        assert(r@ =~= Seq::<FragmentModel>::empty());
        r
    }

    /// Appends a fragment.
    fn push(&mut self, combine: Option<Combine>, body: Vec<Pattern>)
        ensures
            final(self)@ == old(self)@.push(
                (FragmentModel { combine, body: patterns_of(body@) }),
            ),
    {
        let ghost before = self@;
        let fragment = Fragment { combine, body };
        self.list.push(fragment);
        assert(self@ =~= before.push(fragment@));
    }

    /// A copy of the fragments.
    fn copy(&self) -> (r: Self)
        ensures
            r@ == self@,
    {
        let mut out: Vec<Fragment> = Vec::new();
        let mut i: usize = 0;
        while i < self.list.len()
            invariant
                i <= self.list.len(),
                out.len() == i,
                forall|j: int| 0 <= j < i ==> (#[trigger] out@[j])@ == self.list@[j]@,
            decreases self.list.len() - i,
        {
            let fragment = &self.list[i];
            out.push(
                Fragment { combine: fragment.combine, body: copy_patterns(&fragment.body) },
            );
            i += 1;
        }
        let r = Fragments { list: out };
        assert(r@ =~= self@);
        r
    }
}

/// The fragments of the start among the first `n` components.
pub open spec fn start_fragments(items: Seq<ItemModel>, n: nat) -> Seq<FragmentModel>
    decreases n,
{
    if n == 0 || n > items.len() {
        Seq::empty()
    } else {
        let rest = start_fragments(items, (n - 1) as nat);
        match items[n - 1] {
            ItemModel::Start { combine, body } => rest.push(FragmentModel { combine, body }),
            _ => rest,
        }
    }
}

/// The fragments of each named pattern among the first `n` components.
pub open spec fn define_fragments(items: Seq<ItemModel>, n: nat) -> Seq<(Text, Seq<FragmentModel>)>
    decreases n,
{
    if n == 0 || n > items.len() {
        Seq::empty()
    } else {
        let rest = define_fragments(items, (n - 1) as nat);
        match items[n - 1] {
            ItemModel::Define { name, combine, body } => inserted(
                rest,
                name,
                (match lookup(rest, name) {
                    Some(list) => list,
                    None => Seq::empty(),
                }).push(FragmentModel { combine, body }),
            ),
            _ => rest,
        }
    }
}

/// Collects the fragments of the start and of each named pattern.
fn collect_items(items: &Vec<GrammarItem>) -> (r: (Fragments, StringMap<Fragments>))
    ensures
        r.0@ == start_fragments(items_of(items@), items@.len()),
        r.1@ == define_fragments(items_of(items@), items@.len()),
{
    let ghost models = items_of(items@);
    let mut starts = Fragments::new();
    let mut definitions: StringMap<Fragments> = StringMap::new();
    let mut i: usize = 0;
    while i < items.len()
        invariant
            i <= items.len(),
            models == items_of(items@),
            starts@ == start_fragments(models, i as nat),
            definitions@ == define_fragments(models, i as nat),
        decreases items.len() - i,
    {
        proof {
            items@[i as int].lemma_model();
        }
        match &items[i] {
            GrammarItem::Start { combine, body } => {
                starts.push(*combine, copy_patterns(body));
            },
            GrammarItem::Define { name, combine, body } => {
                let mut list = match definitions.get(name.as_str()) {
                    Some(list) => list.copy(),
                    None => Fragments::new(),
                };
                list.push(*combine, copy_patterns(body));
                definitions.insert(name.clone(), list);
            },
            _ => {},
        }
        i += 1;
    }
    (starts, definitions)
}

/// How the first `n` fragments combine, where those that say so agree.
pub open spec fn agreed_combine(fragments: Seq<FragmentModel>, n: nat) -> Result<
    Option<Combine>,
    (),
>
    decreases n,
{
    if n == 0 || n > fragments.len() {
        Ok(None)
    } else {
        match agreed_combine(fragments, (n - 1) as nat) {
            Err(_) => Err(()),
            Ok(existing) => match fragments[n - 1].combine {
                None => Ok(existing),
                Some(method) => if existing is Some && existing->0 != method {
                    Err(())
                } else {
                    Ok(Some(method))
                },
            },
        }
    }
}

/// How many of the first `n` fragments do not say how they combine.
pub open spec fn without_combine(fragments: Seq<FragmentModel>, n: nat) -> nat
    decreases n,
{
    if n == 0 || n > fragments.len() {
        0
    } else {
        without_combine(fragments, (n - 1) as nat) + (if fragments[n - 1].combine is None {
            1nat
        } else {
            0nat
        })
    }
}

/// The patterns of the first `n` fragments.
pub open spec fn fragment_bodies(fragments: Seq<FragmentModel>, n: nat) -> Seq<PatternModel>
    decreases n,
{
    if n == 0 || n > fragments.len() {
        Seq::empty()
    } else {
        fragment_bodies(fragments, (n - 1) as nat) + fragments[n - 1].body
    }
}

/// The pattern that fragments make up: at most one may leave out how they combine, and the
/// others must agree.
pub open spec fn merged(name: Text, fragments: Seq<FragmentModel>) -> Result<
    Option<PatternModel>,
    Text,
> {
    let bodies = fragment_bodies(fragments, fragments.len());
    match agreed_combine(fragments, fragments.len()) {
        Err(_) => Err("`"@ + name + "` has inconsistent combine"@),
        Ok(combine) => if without_combine(fragments, fragments.len()) > 1 {
            Err("`"@ + name + "` has more than one definition without combine"@)
        } else if bodies.len() == 0 {
            Ok(None)
        } else if bodies.len() == 1 {
            Ok(Some(bodies[0]))
        } else {
            match combine {
                Some(Combine::Choice) => Ok(Some(PatternModel::Choice(bodies))),
                Some(Combine::Interleave) => Ok(Some(PatternModel::Interleave(bodies))),
                None => Err("duplicate `"@ + name + "` without combine"@),
            }
        },
    }
}

/// Once fragments disagree, more do not mend it.
proof fn lemma_disagreed(fragments: Seq<FragmentModel>, n: nat)
    requires
        n <= fragments.len(),
        agreed_combine(fragments, n) is Err,
    ensures
        agreed_combine(fragments, fragments.len()) is Err,
    decreases fragments.len() - n,
{
    if n < fragments.len() {
        lemma_disagreed(fragments, n + 1);
    }
}

/// Merges fragments; see [`merged`].
fn merge(name: &str, fragments: &Fragments) -> (r: Result<Option<Pattern>, SchemaError>)
    ensures
        match r {
            Ok(Some(pattern)) => merged(name@, fragments@) == Ok::<Option<PatternModel>, Text>(
                Some(pattern@),
            ),
            Ok(None) => merged(name@, fragments@) == Ok::<Option<PatternModel>, Text>(None),
            Err(error) => merged(name@, fragments@) == Err::<Option<PatternModel>, Text>(error@),
        },
{
    let ghost models = fragments@;
    let mut combine: Option<Combine> = None;
    let mut lacking: usize = 0;
    let mut patterns: Vec<Pattern> = Vec::new();
    let mut i: usize = 0;
    assert(patterns_of(patterns@) =~= Seq::<PatternModel>::empty());
    while i < fragments.list.len()
        invariant
            i <= fragments.list.len(),
            models == fragments@,
            models.len() == fragments.list.len(),
            lacking <= i,
            agreed_combine(models, i as nat) == Ok::<Option<Combine>, ()>(combine),
            lacking == without_combine(models, i as nat),
            patterns_of(patterns@) == fragment_bodies(models, i as nat),
        decreases fragments.list.len() - i,
    {
        let fragment = &fragments.list[i];
        assert(models[i as int] == fragment@);
        match fragment.combine {
            Some(method) => {
                let clash = match combine {
                    Some(existing) => existing != method,
                    None => false,
                };
                if clash {
                    proof {
                        lemma_disagreed(models, (i + 1) as nat);
                    }
                    return Err(
                        SchemaError::from_string(
                            concat3("`", name, "` has inconsistent combine"),
                        ),
                    );
                }
                combine = Some(method);
            },
            None => {
                lacking += 1;
            },
        }
        let mut body = copy_patterns(&fragment.body);
        let ghost before = patterns_of(patterns@);
        let ghost more = patterns_of(body@);
        patterns.append(&mut body);
        assert(patterns_of(patterns@) =~= before + more);
        i += 1;
    }
    if lacking > 1 {
        return Err(
            SchemaError::from_string(
                concat3("`", name, "` has more than one definition without combine"),
            ),
        );
    }
    if patterns.len() == 0 {
        return Ok(None);
    }
    if patterns.len() == 1 {
        return Ok(Some(patterns.pop().unwrap()));
    }
    match combine {
        Some(Combine::Choice) => {
            let pattern = Pattern::Choice(patterns);
            proof {
                pattern.lemma_model();
            }
            Ok(Some(pattern))
        },
        Some(Combine::Interleave) => {
            let pattern = Pattern::Interleave(patterns);
            proof {
                pattern.lemma_model();
            }
            Ok(Some(pattern))
        },
        None => Err(
            SchemaError::from_string(concat3("duplicate `", name, "` without combine")),
        ),
    }
}

/// The first `n` named patterns, each merged from its fragments.
pub open spec fn merged_definitions(fragments: Seq<(Text, Seq<FragmentModel>)>, n: nat) -> Result<
    Defs,
    Text,
>
    decreases n,
{
    if n == 0 || n > fragments.len() {
        Ok(Seq::empty())
    } else {
        match merged_definitions(fragments, (n - 1) as nat) {
            Err(message) => Err(message),
            Ok(before) => match merged(fragments[n - 1].0, fragments[n - 1].1) {
                Err(message) => Err(message),
                Ok(None) => Err("`"@ + fragments[n - 1].0 + "` has no pattern"@),
                Ok(Some(pattern)) => Ok(inserted(before, fragments[n - 1].0, pattern)),
            },
        }
    }
}

/// The start and the named patterns of a plain list of components.
#[verifier::opaque]
pub open spec fn merged_items(items: Seq<ItemModel>, no_start: Text) -> Result<
    (PatternModel, Defs),
    Text,
> {
    match merged("start"@, start_fragments(items, items.len())) {
        Err(message) => Err(message),
        Ok(None) => Err(no_start),
        Ok(Some(start)) => {
            let fragments = define_fragments(items, items.len());
            match merged_definitions(fragments, fragments.len()) {
                Err(message) => Err(message),
                Ok(defs) => Ok((start, defs)),
            }
        },
    }
}

/// The first error of a prefix is that of all.
proof fn lemma_merged_first(fragments: Seq<(Text, Seq<FragmentModel>)>, n: nat)
    requires
        n <= fragments.len(),
        merged_definitions(fragments, n) is Err,
    ensures
        merged_definitions(fragments, fragments.len()) == merged_definitions(fragments, n),
    decreases fragments.len() - n,
{
    if n < fragments.len() {
        lemma_merged_first(fragments, n + 1);
    }
}

/// Merges a plain list of components; see [`merged_items`].
fn merge_items(items: &Vec<GrammarItem>, no_start: &str) -> (r: Result<
    (Pattern, Definitions),
    SchemaError,
>)
    ensures
        match r {
            Ok((start, definitions)) => merged_items(items_of(items@), no_start@) == Ok::<
                (PatternModel, Defs),
                Text,
            >((start@, definitions@)),
            Err(error) => merged_items(items_of(items@), no_start@) == Err::<
                (PatternModel, Defs),
                Text,
            >(error@),
        },
{
    reveal(merged_items);
    let (starts, fragments) = collect_items(items);
    let start = match merge("start", &starts) {
        Err(error) => {
            return Err(error);
        },
        Ok(None) => {
            return Err(SchemaError::new(no_start));
        },
        Ok(Some(start)) => start,
    };
    let ghost all = define_fragments(items_of(items@), items@.len());
    let mut definitions: Definitions = StringMap::new();
    let mut i: usize = 0;
    while i < fragments.len()
        invariant
            i <= fragments@.len(),
            all == fragments@,
            all == define_fragments(items_of(items@), items@.len()),
            merged("start"@, start_fragments(items_of(items@), items@.len())) == Ok::<
                Option<PatternModel>,
                Text,
            >(Some(start@)),
            merged_definitions(all, i as nat) == Ok::<Defs, Text>(definitions@),
        decreases fragments@.len() - i,
    {
        let name = fragments.key_at(i);
        match merge(name.as_str(), fragments.value_at(i)) {
            Err(error) => {
                proof {
                    reveal(merged_items);
                    lemma_merged_first(all, (i + 1) as nat);
                }
                return Err(error);
            },
            Ok(None) => {
                proof {
                    reveal(merged_items);
                    lemma_merged_first(all, (i + 1) as nat);
                }
                return Err(
                    SchemaError::from_string(concat3("`", name.as_str(), "` has no pattern")),
                );
            },
            Ok(Some(pattern)) => {
                definitions.insert(name.clone(), pattern);
            },
        }
        i += 1;
    }
    Ok((start, definitions))
}

/// Whether every pattern has a property.
pub open spec fn each(s: Seq<PatternModel>, has: spec_fn(PatternModel) -> bool) -> bool {
    forall|i: int| 0 <= i < s.len() ==> has(#[trigger] s[i])
}

/// Whether every named pattern has a property.
pub open spec fn each_defined(defs: Defs, has: spec_fn(PatternModel) -> bool) -> bool {
    forall|i: int| 0 <= i < defs.len() ==> has((#[trigger] defs[i]).1)
}

/// Whether every pattern of the fragments has a property.
spec fn each_fragment(fragments: Seq<FragmentModel>, has: spec_fn(PatternModel) -> bool) -> bool {
    forall|i: int| 0 <= i < fragments.len() ==> each((#[trigger] fragments[i]).body, has)
}

/// Whether every pattern that a component holds directly has a property.
pub open spec fn each_in_item(item: ItemModel, has: spec_fn(PatternModel) -> bool) -> bool {
    match item {
        ItemModel::Start { combine, body } => each(body, has),
        ItemModel::Define { name, combine, body } => each(body, has),
        _ => true,
    }
}

/// Whether a choice and an interleave of patterns with a property have it too.
pub open spec fn kept_by_merging(has: spec_fn(PatternModel) -> bool) -> bool {
    forall|s: Seq<PatternModel>|
        #[trigger] each(s, has) ==> has(PatternModel::Choice(s)) && has(
            PatternModel::Interleave(s),
        )
}

/// The fragments of a start hold what the components hold.
proof fn lemma_start_fragments(items: Seq<ItemModel>, n: nat, has: spec_fn(PatternModel) -> bool)
    requires
        forall|i: int| 0 <= i < items.len() ==> each_in_item(#[trigger] items[i], has),
    ensures
        each_fragment(start_fragments(items, n), has),
    decreases n,
{
    if n == 0 || n > items.len() {
    } else {
        lemma_start_fragments(items, (n - 1) as nat, has);
        assert(each_in_item(items[n - 1], has));
    }
}

/// The fragments of each name hold what the components hold.
proof fn lemma_define_fragments(items: Seq<ItemModel>, n: nat, has: spec_fn(PatternModel) -> bool)
    requires
        forall|i: int| 0 <= i < items.len() ==> each_in_item(#[trigger] items[i], has),
    ensures
        forall|i: int|
            0 <= i < define_fragments(items, n).len() ==> each_fragment(
                (#[trigger] define_fragments(items, n)[i]).1,
                has,
            ),
    decreases n,
{
    if n == 0 || n > items.len() {
    } else {
        lemma_define_fragments(items, (n - 1) as nat, has);
        assert(each_in_item(items[n - 1], has));
        let rest = define_fragments(items, (n - 1) as nat);
        match items[n - 1] {
            ItemModel::Define { name, combine, body } => {
                let old_list = match lookup(rest, name) {
                    Some(list) => list,
                    None => Seq::empty(),
                };
                if has_key(rest, name) {
                    let k = lemma_lookup_index(rest, name);
                    assert(each_fragment(rest[k].1, has));
                }
                let list = old_list.push(FragmentModel { combine, body });
                assert(each_fragment(list, has));
                lemma_inserted_entries(rest, name, list);
                let all = define_fragments(items, n);
                assert forall|i: int| 0 <= i < all.len() implies each_fragment(
                    (#[trigger] all[i]).1,
                    has,
                ) by {
                    if all[i] != (name, list) {
                        let j = choose|j: int| 0 <= j < rest.len() && rest[j] == all[i];
                        assert(each_fragment(rest[j].1, has));
                    }
                }
            },
            _ => {},
        }
    }
}

/// The patterns of fragments are those that they hold.
proof fn lemma_fragment_bodies(
    fragments: Seq<FragmentModel>,
    n: nat,
    has: spec_fn(PatternModel) -> bool,
)
    requires
        each_fragment(fragments, has),
    ensures
        each(fragment_bodies(fragments, n), has),
    decreases n,
{
    if n == 0 || n > fragments.len() {
    } else {
        lemma_fragment_bodies(fragments, (n - 1) as nat, has);
        assert(each(fragments[n - 1].body, has));
    }
}

/// What is merged from named fragments has what they have.
proof fn lemma_merged_definitions(
    fragments: Seq<(Text, Seq<FragmentModel>)>,
    n: nat,
    has: spec_fn(PatternModel) -> bool,
)
    requires
        n <= fragments.len(),
        kept_by_merging(has),
        forall|i: int| 0 <= i < fragments.len() ==> each_fragment((#[trigger] fragments[i]).1, has),
        merged_definitions(fragments, n) is Ok,
    ensures
        each_defined(merged_definitions(fragments, n)->Ok_0, has),
    decreases n,
{
    if n > 0 {
        lemma_merged_definitions(fragments, (n - 1) as nat, has);
        let before = merged_definitions(fragments, (n - 1) as nat)->Ok_0;
        let (name, list) = fragments[n - 1];
        lemma_fragment_bodies(list, list.len(), has);
        let pattern = merged(name, list)->Ok_0->0;
        assert(has(pattern));
        lemma_inserted_entries(before, name, pattern);
        let all = merged_definitions(fragments, n)->Ok_0;
        assert forall|i: int| 0 <= i < all.len() implies has((#[trigger] all[i]).1) by {
            if all[i] != (name, pattern) {
                let j = choose|j: int| 0 <= j < before.len() && before[j] == all[i];
                assert(has(before[j].1));
            }
        }
    }
}

/// Merging keeps a property that every pattern of the components has.
pub proof fn lemma_merged_items(
    items: Seq<ItemModel>,
    no_start: Text,
    has: spec_fn(PatternModel) -> bool,
)
    requires
        kept_by_merging(has),
        forall|i: int| 0 <= i < items.len() ==> each_in_item(#[trigger] items[i], has),
        merged_items(items, no_start) is Ok,
    ensures
        has(merged_items(items, no_start)->Ok_0.0),
        each_defined(merged_items(items, no_start)->Ok_0.1, has),
{
    reveal(merged_items);
    lemma_start_fragments(items, items.len(), has);
    let starts = start_fragments(items, items.len());
    lemma_fragment_bodies(starts, starts.len(), has);
    lemma_define_fragments(items, items.len(), has);
    let fragments = define_fragments(items, items.len());
    lemma_merged_definitions(fragments, fragments.len(), has);
}

// ---------------------------------------------------------------------
// Nested grammars
// ---------------------------------------------------------------------

/// The name that a named pattern of a nested grammar gets.
pub open spec fn renamed(name: Text, tag: nat) -> Text {
    name + "#"@ + decimal(tag)
}

/// A pattern of a nested grammar as one of the enclosing grammar: references to the nested
/// grammar's own names follow their renaming, and those to the enclosing grammar become
/// plain references.
pub open spec fn rewritten(p: PatternModel, own: Defs, tag: nat) -> PatternModel
    decreases p,
{
    match p {
        PatternModel::Ref(name) => if has_key(own, name) {
            PatternModel::Ref(renamed(name, tag))
        } else {
            p
        },
        PatternModel::ParentRef(name) => PatternModel::Ref(name),
        PatternModel::Element { name, body, context } => PatternModel::Element {
            name,
            body: all_rewritten(body, own, tag),
            context,
        },
        PatternModel::Attribute { name, body, context } => PatternModel::Attribute {
            name,
            body: all_rewritten(body, own, tag),
            context,
        },
        PatternModel::Group(values) => PatternModel::Group(all_rewritten(values, own, tag)),
        PatternModel::Interleave(values) => PatternModel::Interleave(
            all_rewritten(values, own, tag),
        ),
        PatternModel::Choice(values) => PatternModel::Choice(all_rewritten(values, own, tag)),
        PatternModel::Optional(values) => PatternModel::Optional(all_rewritten(values, own, tag)),
        PatternModel::ZeroOrMore(values) => PatternModel::ZeroOrMore(
            all_rewritten(values, own, tag),
        ),
        PatternModel::OneOrMore(values) => PatternModel::OneOrMore(
            all_rewritten(values, own, tag),
        ),
        PatternModel::List(values) => PatternModel::List(all_rewritten(values, own, tag)),
        PatternModel::Mixed(values) => PatternModel::Mixed(all_rewritten(values, own, tag)),
        PatternModel::Data { datatype, datatype_library, params, except, context } =>
            PatternModel::Data {
            datatype,
            datatype_library,
            params,
            except: all_rewritten(except, own, tag),
            context,
        },
        _ => p,
    }
}

/// Each pattern of a nested grammar as one of the enclosing grammar.
pub open spec fn all_rewritten(s: Seq<PatternModel>, own: Defs, tag: nat) -> Seq<PatternModel>
    decreases s,
{
    Seq::new(
        s.len(),
        |i: int|
            if 0 <= i < s.len() {
                rewritten(s[i], own, tag)
            } else {
                PatternModel::Empty
            },
    )
}

/// The name that a named pattern of a nested grammar gets.
fn rename(name: &str, tag: u64) -> (r: String)
    ensures
        r@ == renamed(name@, tag as nat),
{
    let digits = to_decimal(tag);
    concat3(name, "#", digits.as_str())
}

/// Rewrites the references of a pattern of a nested grammar; see [`rewritten`].
fn rewrite_refs(pattern: &Pattern, own: &Definitions, tag: u64) -> (r: Pattern)
    ensures
        r@ == rewritten(pattern@, own@, tag as nat),
    decreases pattern,
{
    proof {
        pattern.lemma_model();
    }
    let r = match pattern {
        Pattern::Ref(name) => {
            if own.contains_key(name.as_str()) {
                Pattern::Ref(rename(name.as_str(), tag))
            } else {
                Pattern::Ref(name.clone())
            }
        },
        Pattern::ParentRef(name) => Pattern::Ref(name.clone()),
        Pattern::Element { name, body, context } => Pattern::Element {
            name: copy_name(name),
            body: rewrite_all(body, own, tag),
            context: context.duplicate(),
        },
        Pattern::Attribute { name, body, context } => Pattern::Attribute {
            name: copy_name(name),
            body: rewrite_all(body, own, tag),
            context: context.duplicate(),
        },
        Pattern::Group(values) => Pattern::Group(rewrite_all(values, own, tag)),
        Pattern::Interleave(values) => Pattern::Interleave(rewrite_all(values, own, tag)),
        Pattern::Choice(values) => Pattern::Choice(rewrite_all(values, own, tag)),
        Pattern::Optional(values) => Pattern::Optional(rewrite_all(values, own, tag)),
        Pattern::ZeroOrMore(values) => Pattern::ZeroOrMore(rewrite_all(values, own, tag)),
        Pattern::OneOrMore(values) => Pattern::OneOrMore(rewrite_all(values, own, tag)),
        Pattern::List(values) => Pattern::List(rewrite_all(values, own, tag)),
        Pattern::Mixed(values) => Pattern::Mixed(rewrite_all(values, own, tag)),
        Pattern::Data { datatype, datatype_library, params, except, context } => Pattern::Data {
            datatype: datatype.clone(),
            datatype_library: copy_opt(datatype_library),
            params: copy_params(params),
            except: rewrite_all(except, own, tag),
            context: context.duplicate(),
        },
        _ => copy_pattern(pattern),
    };
    proof {
        r.lemma_model();
    }
    r
}

/// Rewrites the references of each pattern.
fn rewrite_all(values: &Vec<Pattern>, own: &Definitions, tag: u64) -> (r: Vec<Pattern>)
    ensures
        patterns_of(r@) == all_rewritten(patterns_of(values@), own@, tag as nat),
    decreases values,
{
    let ghost models = patterns_of(values@);
    let mut out: Vec<Pattern> = Vec::new();
    let mut i: usize = 0;
    while i < values.len()
        invariant
            i <= values.len(),
            models == patterns_of(values@),
            out.len() == i,
            forall|j: int|
                0 <= j < i ==> (#[trigger] patterns_of(out@)[j]) == rewritten(
                    models[j],
                    own@,
                    tag as nat,
                ),
        decreases values.len() - i,
    {
        let value = rewrite_refs(&values[i], own, tag);
        let ghost before = patterns_of(out@);
        out.push(value);
        i += 1;
        assert(patterns_of(out@) =~= before.push(value@));
    }
    assert(patterns_of(out@) =~= all_rewritten(models, own@, tag as nat));
    out
}

// ---------------------------------------------------------------------
// Patterns
// ---------------------------------------------------------------------

/// What composition carries along: the named patterns of nested grammars, how many nested
/// grammars there were, and the exchanges with the resolver that are still to come.
#[verifier::ext_equal]
pub struct StateModel {
    pub extra: Defs,
    pub next_id: nat,
    pub feed: Feed,
}

/// Where a pattern stands during composition: what is being loaded, and the names that
/// references may refer to, in this grammar and in the enclosing one.
#[verifier::ext_equal]
pub struct PlaceModel {
    pub loading: Seq<Text>,
    pub scope: Defs,
    pub parent: Option<Defs>,
}

/// The first `n` named patterns of the grammars inside a nested one, added to the others as
/// patterns of the enclosing grammar: what they refer to in the nested grammar is renamed
/// with it.
pub open spec fn with_moved(extra: Defs, inside: Defs, own: Defs, tag: nat, n: nat) -> Defs
    decreases n,
{
    if n == 0 || n > inside.len() {
        extra
    } else {
        inserted(
            with_moved(extra, inside, own, tag, (n - 1) as nat),
            inside[n - 1].0,
            rewritten(inside[n - 1].1, own, tag),
        )
    }
}

/// The named patterns of a nested grammar, the first `n`, added to the others under their
/// new names.
pub open spec fn with_nested(extra: Defs, simple: Defs, own: Defs, tag: nat, n: nat) -> Defs
    decreases n,
{
    if n == 0 || n > simple.len() {
        extra
    } else {
        inserted(
            with_nested(extra, simple, own, tag, (n - 1) as nat),
            renamed(simple[n - 1].0, tag),
            rewritten(simple[n - 1].1, own, tag),
        )
    }
}

/// The patterns inside a pattern that are reduced before it is; `None` for one that stands
/// as it is, or refers elsewhere.
pub open spec fn operands(p: PatternModel) -> Option<Seq<PatternModel>> {
    match p {
        PatternModel::Optional(values) => Some(values),
        PatternModel::ZeroOrMore(values) => Some(values),
        PatternModel::OneOrMore(values) => Some(values),
        PatternModel::Mixed(values) => Some(values),
        PatternModel::List(values) => Some(values),
        PatternModel::Group(values) => Some(values),
        PatternModel::Choice(values) => Some(values),
        PatternModel::Interleave(values) => Some(values),
        PatternModel::Element { name, body, context } => Some(body),
        PatternModel::Attribute { name, body, context } => Some(body),
        PatternModel::Data { datatype, datatype_library, params, except, context } => Some(except),
        _ => None,
    }
}

/// Operands stand inside.
pub proof fn lemma_operands(p: PatternModel)
    ensures
        operands(p) matches Some(values) ==> decreases_to!(p => values),
{
}

/// A pattern with its operands reduced: what is optional is a choice with nothing, what is
/// mixed is interleaved with text, and several patterns in a row are a group.
#[verifier::opaque]
pub open spec fn rebuilt(p: PatternModel, s: Seq<PatternModel>) -> PatternModel {
    match p {
        PatternModel::Optional(_) => choice_of(seq![group_of(s), PatternModel::Empty]),
        PatternModel::ZeroOrMore(_) => choice_of(
            seq![one_or_more_of(group_of(s)), PatternModel::Empty],
        ),
        PatternModel::OneOrMore(_) => one_or_more_of(group_of(s)),
        PatternModel::Mixed(_) => interleave_of(seq![group_of(s), PatternModel::Text]),
        PatternModel::List(_) => if group_of(s) is NotAllowed {
            PatternModel::NotAllowed
        } else {
            PatternModel::List(seq![group_of(s)])
        },
        PatternModel::Group(_) => group_of(s),
        PatternModel::Choice(_) => choice_of(s),
        PatternModel::Interleave(_) => interleave_of(s),
        PatternModel::Element { name, body, context } => PatternModel::Element {
            name,
            body: seq![group_of(s)],
            context,
        },
        PatternModel::Attribute { name, body, context } => if group_of(s) is NotAllowed {
            PatternModel::NotAllowed
        } else {
            PatternModel::Attribute { name, body: seq![group_of(s)], context }
        },
        PatternModel::Data { datatype, datatype_library, params, except, context } =>
            PatternModel::Data {
            datatype,
            datatype_library,
            params,
            except: without(s, PatternModel::NotAllowed),
            context,
        },
        _ => p,
    }
}

/// The complaint about a pattern itself, regardless of what stands inside: about the name
/// of an element or an attribute, or about a datatype of the built-in library.
#[verifier::opaque]
pub open spec fn own_problem(p: PatternModel) -> Option<Text> {
    match p {
        PatternModel::Element { name, body, context } => name_problem(name),
        PatternModel::Attribute { name, body, context } => match name_problem(name) {
            Some(message) => Some(message),
            None => attribute_name_problem(name),
        },
        PatternModel::Data { datatype, datatype_library, params, except, context } =>
            builtin_problem(datatype, datatype_library, params.len() > 0),
        PatternModel::Value { value, datatype, datatype_library, namespace, context } =>
            match datatype {
                None => None,
                Some(name) => builtin_problem(name, datatype_library, false),
            },
        _ => None,
    }
}

/// A pattern reduced to the forms that the validator derives, where references to other
/// schemas and nested grammars are resolved.
pub open spec fn simple(p: PatternModel, place: PlaceModel, state: StateModel, depth: nat) -> Result<
    (PatternModel, StateModel),
    Stop,
>
    decreases depth, p, 0nat,
{
    match p {
        PatternModel::Ref(name) => if has_key(place.scope, name) {
            Ok((p, state))
        } else {
            Err(Some("RELAX NG §4.18: `ref` to undefined `"@ + name + "`"@))
        },
        PatternModel::ParentRef(name) => if place.parent is Some && has_key(
            place.parent->0,
            name,
        ) {
            Ok((p, state))
        } else {
            Err(Some("RELAX NG §4.18: `parentRef` to undefined `"@ + name + "`"@))
        },
        PatternModel::ExternalRef { href, inherit_namespace, context } => {
            let key = reference_key(href, context.base_uri);
            if place.loading.contains(key) {
                Err(Some("externalRef cycle"@))
            } else if depth == 0 {
                Err(Some(depth_complaint()))
            } else {
                match referred(state.feed, href, context) {
                    Err(stop) => Err(stop),
                    Ok(RootModel::Grammar(_)) => Err(Some("externalRef must resolve to a pattern"@)),
                    Ok(RootModel::Pattern(value)) => simple(
                        value,
                        PlaceModel {
                            loading: place.loading.push(key),
                            scope: Seq::empty(),
                            parent: None,
                        },
                        StateModel { feed: state.feed.drop_first(), ..state },
                        (depth - 1) as nat,
                    ),
                }
            }
        },
        PatternModel::Grammar(nested) => simple_grammar(nested, place, state, depth),
        _ => match own_problem(p) {
            Some(message) => Err(Some(message)),
            None => match operands(p) {
                None => Ok((p, state)),
                Some(values) => {
                    proof {
                        lemma_operands(p);
                    }
                    match all_simple(values, place, state, depth, values.len()) {
                        Err(stop) => Err(stop),
                        Ok((s, after)) => Ok((rebuilt(p, s), after)),
                    }
                },
            },
        },
    }
}

/// A grammar that stands as a pattern, reduced: its start takes its place, its named
/// patterns move up under new names, and those that moved up to it move on.
pub open spec fn simple_grammar(
    nested: GrammarModel,
    place: PlaceModel,
    state: StateModel,
    depth: nat,
) -> Result<(PatternModel, StateModel), Stop>
    decreases depth, nested, 0nat,
{
    if depth == 0 {
        Err(Some(depth_complaint()))
    } else {
        match flat_items(nested.items, place.loading, state.feed, depth, nested.items.len()) {
            Err(stop) => Err(stop),
            Ok((items, rest)) => match merged_items(items, "nested grammar has no start"@) {
                Err(message) => Err(Some(message)),
                Ok((start, own)) => {
                    let inner = PlaceModel {
                        loading: place.loading,
                        scope: own,
                        parent: Some(place.scope),
                    };
                    match simple(
                        start,
                        inner,
                        StateModel { extra: Seq::empty(), feed: rest, ..state },
                        (depth - 1) as nat,
                    ) {
                        Err(stop) => Err(stop),
                        Ok((first, middle)) => match simple_definitions(
                            own,
                            inner,
                            middle,
                            (depth - 1) as nat,
                            own.len(),
                        ) {
                            Err(stop) => Err(stop),
                            Ok((defs, after)) => if after.next_id >= u64::MAX {
                                Err(Some("too many nested grammars"@))
                            } else {
                                let tag = after.next_id + 1;
                                Ok(
                                    (
                                        rewritten(first, own, tag),
                                        StateModel {
                                            extra: with_nested(
                                                with_moved(
                                                    state.extra,
                                                    after.extra,
                                                    own,
                                                    tag,
                                                    after.extra.len(),
                                                ),
                                                defs,
                                                own,
                                                tag,
                                                defs.len(),
                                            ),
                                            next_id: tag,
                                            feed: after.feed,
                                        },
                                    ),
                                )
                            },
                        },
                    }
                },
            },
        }
    }
}

/// The first `n` patterns reduced.
pub open spec fn all_simple(
    s: Seq<PatternModel>,
    place: PlaceModel,
    state: StateModel,
    depth: nat,
    n: nat,
) -> Result<(Seq<PatternModel>, StateModel), Stop>
    decreases depth, s, n,
{
    if n == 0 || n > s.len() {
        Ok((Seq::empty(), state))
    } else {
        match all_simple(s, place, state, depth, (n - 1) as nat) {
            Err(stop) => Err(stop),
            Ok((before, middle)) => match simple(s[n - 1], place, middle, depth) {
                Err(stop) => Err(stop),
                Ok((p, after)) => Ok((before.push(p), after)),
            },
        }
    }
}

/// The first `n` named patterns reduced.
pub open spec fn simple_definitions(
    defs: Defs,
    place: PlaceModel,
    state: StateModel,
    depth: nat,
    n: nat,
) -> Result<(Defs, StateModel), Stop>
    decreases depth, defs, n,
{
    if n == 0 || n > defs.len() {
        Ok((Seq::empty(), state))
    } else {
        match simple_definitions(defs, place, state, depth, (n - 1) as nat) {
            Err(stop) => Err(stop),
            Ok((before, middle)) => match simple(defs[n - 1].1, place, middle, depth) {
                Err(stop) => Err(stop),
                Ok((p, after)) => Ok((inserted(before, defs[n - 1].0, p), after)),
            },
        }
    }
}

/// What composition carries along.
pub struct Composition {
    extra: Definitions,
    next_id: u64,
}

impl Composition {
    /// The model, with the exchanges that are still to come.
    pub closed spec fn with_feed(&self, feed: Feed) -> StateModel {
        StateModel { extra: self.extra@, next_id: self.next_id as nat, feed }
    }
}

/// The model of a place.
pub open spec fn place_of(
    loading: &Vec<String>,
    scope: &Definitions,
    parent: Option<&Definitions>,
) -> PlaceModel {
    PlaceModel {
        loading: texts(loading@),
        scope: scope@,
        parent: match parent {
            Some(names) => Some(names@),
            None => None,
        },
    }
}

/// What a reduced pattern comes to, where all exchanges were needed.
spec fn reduced(r: Result<Pattern, SchemaError>, after: Composition) -> Result<
    (PatternModel, StateModel),
    Stop,
> {
    match r {
        Ok(q) => Ok((q@, after.with_feed(Seq::empty()))),
        Err(error) => Err(Some(error@)),
    }
}

/// What reduced patterns come to, where all exchanges were needed.
spec fn all_reduced(r: Result<Vec<Pattern>, SchemaError>, after: Composition) -> Result<
    (Seq<PatternModel>, StateModel),
    Stop,
> {
    match r {
        Ok(q) => Ok((patterns_of(q@), after.with_feed(Seq::empty()))),
        Err(error) => Err(Some(error@)),
    }
}

/// What reduced named patterns come to, where all exchanges were needed.
spec fn definitions_reduced(r: Result<Definitions, SchemaError>, after: Composition) -> Result<
    (Defs, StateModel),
    Stop,
> {
    match r {
        Ok(q) => Ok((q@, after.with_feed(Seq::empty()))),
        Err(error) => Err(Some(error@)),
    }
}

/// A state with exchanges after those that are still to come.
pub open spec fn followed(state: StateModel, rest: Feed) -> StateModel {
    StateModel { feed: state.feed + rest, ..state }
}

/// A result with exchanges after those that are left.
pub open spec fn before_rest<A>(r: Result<(A, StateModel), Stop>, rest: Feed) -> Result<
    (A, StateModel),
    Stop,
> {
    match r {
        Ok((value, after)) => Ok((value, followed(after, rest))),
        Err(stop) => Err(stop),
    }
}

/// What a pattern is reduced to does not depend on exchanges after those that it needs.
pub proof fn lemma_simple_before(
    p: PatternModel,
    place: PlaceModel,
    state: StateModel,
    depth: nat,
    rest: Feed,
)
    requires
        simple(p, place, state, depth) != Err::<(PatternModel, StateModel), Stop>(None),
    ensures
        simple(p, place, followed(state, rest), depth) == before_rest(
            simple(p, place, state, depth),
            rest,
        ),
    decreases depth, p, 0nat,
{
    match p {
        PatternModel::Ref(_) => {},
        PatternModel::ParentRef(_) => {},
        PatternModel::ExternalRef { href, inherit_namespace, context } => {
            let key = reference_key(href, context.base_uri);
            if !place.loading.contains(key) && depth > 0 {
                let feed = state.feed;
                assert(asked(feed, href, context.base_uri));
                assert((feed + rest)[0] == feed[0]);
                assert((feed + rest).drop_first() =~= feed.drop_first() + rest);
                match referred(feed, href, context) {
                    Ok(RootModel::Pattern(value)) => {
                        lemma_simple_before(
                            value,
                            PlaceModel {
                                loading: place.loading.push(key),
                                scope: Seq::empty(),
                                parent: None,
                            },
                            StateModel { feed: feed.drop_first(), ..state },
                            (depth - 1) as nat,
                            rest,
                        );
                    },
                    _ => {},
                }
            }
        },
        PatternModel::Grammar(nested) => {
            lemma_simple_grammar_before(nested, place, state, depth, rest);
        },
        _ => {
            if own_problem(p) is None && operands(p) is Some {
                let values = operands(p)->0;
                lemma_operands(p);
                lemma_all_simple_before(values, place, state, depth, values.len(), rest);
            }
        },
    }
}

/// What a nested grammar is reduced to does not depend on exchanges after those that it
/// needs.
proof fn lemma_simple_grammar_before(
    nested: GrammarModel,
    place: PlaceModel,
    state: StateModel,
    depth: nat,
    rest: Feed,
)
    requires
        simple_grammar(nested, place, state, depth) != Err::<(PatternModel, StateModel), Stop>(
            None,
        ),
    ensures
        simple_grammar(nested, place, followed(state, rest), depth) == before_rest(
            simple_grammar(nested, place, state, depth),
            rest,
        ),
    decreases depth, nested, 0nat,
{
    if depth > 0 {
        let below = (depth - 1) as nat;
        let n = nested.items.len();
        lemma_flat_items_before(nested.items, place.loading, state.feed, depth, n, rest);
        match flat_items(nested.items, place.loading, state.feed, depth, n) {
            Ok((items, left)) => match merged_items(items, "nested grammar has no start"@) {
                Ok((start, own)) => {
                    let inner = PlaceModel {
                        loading: place.loading,
                        scope: own,
                        parent: Some(place.scope),
                    };
                    let flat = StateModel { extra: Seq::empty(), feed: left, ..state };
                    lemma_simple_before(start, inner, flat, below, rest);
                    match simple(start, inner, flat, below) {
                        Ok((first, middle)) => {
                            lemma_simple_definitions_before(
                                own,
                                inner,
                                middle,
                                below,
                                own.len(),
                                rest,
                            );
                        },
                        Err(_) => {},
                    }
                },
                Err(_) => {},
            },
            Err(_) => {},
        }
    }
}

/// What patterns are reduced to does not depend on exchanges after those that they need.
pub proof fn lemma_all_simple_before(
    s: Seq<PatternModel>,
    place: PlaceModel,
    state: StateModel,
    depth: nat,
    n: nat,
    rest: Feed,
)
    requires
        all_simple(s, place, state, depth, n) != Err::<(Seq<PatternModel>, StateModel), Stop>(
            None,
        ),
    ensures
        all_simple(s, place, followed(state, rest), depth, n) == before_rest(
            all_simple(s, place, state, depth, n),
            rest,
        ),
    decreases depth, s, n,
{
    if n == 0 || n > s.len() {
    } else {
        lemma_all_simple_before(s, place, state, depth, (n - 1) as nat, rest);
        match all_simple(s, place, state, depth, (n - 1) as nat) {
            Ok((before, middle)) => {
                lemma_simple_before(s[n - 1], place, middle, depth, rest);
            },
            Err(_) => {},
        }
    }
}

/// What named patterns are reduced to does not depend on exchanges after those that they
/// need.
pub proof fn lemma_simple_definitions_before(
    defs: Defs,
    place: PlaceModel,
    state: StateModel,
    depth: nat,
    n: nat,
    rest: Feed,
)
    requires
        simple_definitions(defs, place, state, depth, n) != Err::<(Defs, StateModel), Stop>(None),
    ensures
        simple_definitions(defs, place, followed(state, rest), depth, n) == before_rest(
            simple_definitions(defs, place, state, depth, n),
            rest,
        ),
    decreases depth, defs, n,
{
    if n == 0 || n > defs.len() {
    } else {
        lemma_simple_definitions_before(defs, place, state, depth, (n - 1) as nat, rest);
        match simple_definitions(defs, place, state, depth, (n - 1) as nat) {
            Ok((before, middle)) => {
                lemma_simple_before(defs[n - 1].1, place, middle, depth, rest);
            },
            Err(_) => {},
        }
    }
}

/// The patterns inside a pattern that are reduced before it is; see [`operands`].
fn operands_of(pattern: &Pattern) -> (r: Option<&Vec<Pattern>>)
    ensures
        match r {
            Some(values) => operands(pattern@) == Some(patterns_of(values@)) && decreases_to!(
                pattern => values
            ),
            None => operands(pattern@) is None,
        },
{
    proof {
        pattern.lemma_model();
    }
    match pattern {
        Pattern::Optional(values) => Some(values),
        Pattern::ZeroOrMore(values) => Some(values),
        Pattern::OneOrMore(values) => Some(values),
        Pattern::Mixed(values) => Some(values),
        Pattern::List(values) => Some(values),
        Pattern::Group(values) => Some(values),
        Pattern::Choice(values) => Some(values),
        Pattern::Interleave(values) => Some(values),
        Pattern::Element { name, body, context } => Some(body),
        Pattern::Attribute { name, body, context } => Some(body),
        Pattern::Data { datatype, datatype_library, params, except, context } => Some(except),
        _ => None,
    }
}

/// A pattern with its operands reduced; see [`rebuilt`].
fn rebuild(pattern: &Pattern, s: Vec<Pattern>) -> (r: Pattern)
    ensures
        r@ == rebuilt(pattern@, patterns_of(s@)),
{
    proof {
        reveal(rebuilt);
        pattern.lemma_model();
    }
    let r = match pattern {
        Pattern::Optional(_) => choice(pair(group(s), Pattern::Empty)),
        Pattern::ZeroOrMore(_) => choice(pair(one_or_more(group(s)), Pattern::Empty)),
        Pattern::OneOrMore(_) => one_or_more(group(s)),
        Pattern::Mixed(_) => interleave(pair(group(s), Pattern::Text)),
        Pattern::List(_) => {
            let body = group(s);
            if is_not_allowed(&body) {
                Pattern::NotAllowed
            } else {
                Pattern::List(single(body))
            }
        },
        Pattern::Group(_) => group(s),
        Pattern::Choice(_) => choice(s),
        Pattern::Interleave(_) => interleave(s),
        Pattern::Element { name, body, context } => Pattern::Element {
            name: copy_name(name),
            body: single(group(s)),
            context: context.duplicate(),
        },
        Pattern::Attribute { name, body, context } => {
            let value = group(s);
            if is_not_allowed(&value) {
                Pattern::NotAllowed
            } else {
                Pattern::Attribute {
                    name: copy_name(name),
                    body: single(value),
                    context: context.duplicate(),
                }
            }
        },
        Pattern::Data { datatype, datatype_library, params, except, context } => Pattern::Data {
            datatype: datatype.clone(),
            datatype_library: copy_opt(datatype_library),
            params: copy_params(params),
            except: drop_not_allowed(s),
            context: context.duplicate(),
        },
        _ => copy_pattern(pattern),
    };
    proof {
        r.lemma_model();
    }
    r
}

/// Checks a pattern itself, regardless of what stands inside; see [`own_problem`].
fn check_pattern(pattern: &Pattern) -> (r: Result<(), SchemaError>)
    ensures
        verdict(r) == own_problem(pattern@),
{
    proof {
        reveal(own_problem);
        pattern.lemma_model();
    }
    match pattern {
        Pattern::Element { name, body, context } => check_name_class_constraints(name),
        Pattern::Attribute { name, body, context } => {
            let checked = check_name_class_constraints(name);
            if checked.is_err() {
                return checked;
            }
            check_attribute_name_class_constraints(name)
        },
        Pattern::Data { datatype, datatype_library, params, except, context } =>
            check_builtin_datatype_constraints(
            datatype.as_str(),
            datatype_library,
            params.len() > 0,
        ),
        Pattern::Value { value, datatype, datatype_library, namespace, context } => match datatype {
            None => Ok(()),
            Some(name) => check_builtin_datatype_constraints(
                name.as_str(),
                datatype_library,
                false,
            ),
        },
        _ => Ok(()),
    }
}

/// Reduces a pattern; see [`simple`].
fn simplify_pattern<R: SchemaResolver>(
    pattern: &Pattern,
    resolver: &R,
    loading: &Vec<String>,
    state: &mut Composition,
    scope: &Definitions,
    parent_scope: Option<&Definitions>,
    depth: u64,
) -> (r: (Result<Pattern, SchemaError>, Ghost<Feed>))
    ensures
        consistent(resolver, r.1@),
        simple(
            pattern@,
            place_of(loading, scope, parent_scope),
            old(state).with_feed(r.1@),
            depth as nat,
        ) == reduced(r.0, *final(state)),
    decreases 2 * depth, pattern, 1nat,
{
    let ghost none: Feed = Seq::empty();
    proof {
        pattern.lemma_model();
    }
    match pattern {
        Pattern::Ref(name) => {
            if !scope.contains_key(name.as_str()) {
                return (
                    Err(
                        SchemaError::from_string(
                            concat3("RELAX NG §4.18: `ref` to undefined `", name.as_str(), "`"),
                        ),
                    ),
                    Ghost(none),
                );
            }
            (Ok(copy_pattern(pattern)), Ghost(none))
        },
        Pattern::ParentRef(name) => {
            let known = match parent_scope {
                Some(names) => names.contains_key(name.as_str()),
                None => false,
            };
            if !known {
                return (
                    Err(
                        SchemaError::from_string(
                            concat3(
                                "RELAX NG §4.18: `parentRef` to undefined `",
                                name.as_str(),
                                "`",
                            ),
                        ),
                    ),
                    Ghost(none),
                );
            }
            (Ok(copy_pattern(pattern)), Ghost(none))
        },
        Pattern::ExternalRef { href, inherit_namespace, context } => {
            simplify_external(
                pattern,
                href,
                context,
                resolver,
                loading,
                state,
                scope,
                parent_scope,
                depth,
            )
        },
        Pattern::Grammar(nested) => simplify_nested(
            nested,
            resolver,
            loading,
            state,
            scope,
            parent_scope,
            depth,
        ),
        _ => simplify_operands(
            pattern,
            resolver,
            loading,
            state,
            scope,
            parent_scope,
            depth,
        ),
    }
}

/// Whether a pattern refers elsewhere, or is a nested grammar.
pub open spec fn refers(p: PatternModel) -> bool {
    p is Ref || p is ParentRef || p is ExternalRef || p is Grammar
}

/// Reduces a pattern by its operands.
fn simplify_operands<R: SchemaResolver>(
    pattern: &Pattern,
    resolver: &R,
    loading: &Vec<String>,
    state: &mut Composition,
    scope: &Definitions,
    parent_scope: Option<&Definitions>,
    depth: u64,
) -> (r: (Result<Pattern, SchemaError>, Ghost<Feed>))
    requires
        !refers(pattern@),
    ensures
        consistent(resolver, r.1@),
        simple(
            pattern@,
            place_of(loading, scope, parent_scope),
            old(state).with_feed(r.1@),
            depth as nat,
        ) == reduced(r.0, *final(state)),
    decreases 2 * depth, pattern, 0nat,
{
    let ghost none: Feed = Seq::empty();
    match check_pattern(pattern) {
        Err(error) => {
            return (Err(error), Ghost(none));
        },
        Ok(_) => {},
    }
    let values = match operands_of(pattern) {
        None => {
            return (Ok(copy_pattern(pattern)), Ghost(none));
        },
        Some(values) => values,
    };
    let (result, log) = simplify_all(
        values,
        resolver,
        loading,
        state,
        scope,
        parent_scope,
        depth,
    );
    match result {
        Err(error) => (Err(error), log),
        Ok(s) => (Ok(rebuild(pattern, s)), log),
    }
}

/// Reduces a reference to another schema: what it refers to takes its place.
fn simplify_external<R: SchemaResolver>(
    pattern: &Pattern,
    href: &String,
    context: &Context,
    resolver: &R,
    loading: &Vec<String>,
    state: &mut Composition,
    scope: &Definitions,
    parent_scope: Option<&Definitions>,
    depth: u64,
) -> (r: (Result<Pattern, SchemaError>, Ghost<Feed>))
    requires
        match pattern@ {
            PatternModel::ExternalRef { href: h, inherit_namespace, context: c } => h == href@ && c
                == context@,
            _ => false,
        },
    ensures
        consistent(resolver, r.1@),
        simple(
            pattern@,
            place_of(loading, scope, parent_scope),
            old(state).with_feed(r.1@),
            depth as nat,
        ) == reduced(r.0, *final(state)),
    decreases 2 * depth, pattern, 0nat,
{
    let ghost none: Feed = Seq::empty();
    let key = concat3(context.base_uri.as_str(), "::", href.as_str());
    if holds(loading, key.as_str()) {
        return (Err(SchemaError::new("externalRef cycle")), Ghost(none));
    }
    if depth == 0 {
        return (Err(SchemaError::new("schema references are nested too deep")), Ghost(none));
    }
    let mut inside = copy_strings(loading);
    inside.push(key);
    assert(texts(inside@) =~= texts(loading@).push(key@));
    let (loaded, exchange) = load(
        href.as_str(),
        context.base_uri.as_str(),
        &context.ns,
        resolver,
    );
    let ghost first: Feed = seq![exchange@];
    let document = match loaded {
        Err(error) => {
            return (Err(error), Ghost(first));
        },
        Ok(document) => document,
    };
    let value = match document.root {
        Root::Grammar(_) => {
            return (
                Err(SchemaError::new("externalRef must resolve to a pattern")),
                Ghost(first),
            );
        },
        Root::Pattern(value) => value,
    };
    let empty: Definitions = StringMap::new();
    let (result, more) = simplify_pattern(
        &value,
        resolver,
        &inside,
        state,
        &empty,
        None,
        depth - 1,
    );
    let ghost both = first + more@;
    assert(both.drop_first() =~= more@);
    (result, Ghost(both))
}

/// Reduces a grammar that stands as a pattern: its named patterns move up under fresh
/// names, and references to them are rewritten to match, also in what moved up from the
/// grammars inside it.
fn simplify_nested<R: SchemaResolver>(
    nested: &Grammar,
    resolver: &R,
    loading: &Vec<String>,
    state: &mut Composition,
    scope: &Definitions,
    parent_scope: Option<&Definitions>,
    depth: u64,
) -> (r: (Result<Pattern, SchemaError>, Ghost<Feed>))
    ensures
        consistent(resolver, r.1@),
        simple_grammar(
            nested@,
            place_of(loading, scope, parent_scope),
            old(state).with_feed(r.1@),
            depth as nat,
        ) == reduced(r.0, *final(state)),
    decreases 2 * depth, nested, 0nat,
{
    proof {
        nested.lemma_model();
    }
    let ghost none: Feed = Seq::empty();
    if depth == 0 {
        return (Err(SchemaError::new("schema references are nested too deep")), Ghost(none));
    }
    let mut within = Composition { extra: StringMap::new(), next_id: state.next_id };
    let ghost outside = within;
    let ghost below = (depth - 1) as nat;
    let (flat, first) = flatten_items(&nested.items, resolver, loading, depth);
    let items = match flat {
        Err(error) => {
            return (Err(error), first);
        },
        Ok(items) => items,
    };
    let (start, own) = match merge_items(&items, "nested grammar has no start") {
        Err(error) => {
            return (Err(error), first);
        },
        Ok(pair) => pair,
    };
    let ghost inner = place_of(loading, &own, Some(scope));
    let (simple_start, second) = simplify_pattern(
        &start,
        resolver,
        loading,
        &mut within,
        &own,
        Some(scope),
        depth - 1,
    );
    let ghost two = first@ + second@;
    proof {
        lemma_flat_items_before(
            nested@.items,
            texts(loading@),
            first@,
            depth as nat,
            nested@.items.len(),
            second@,
        );
        assert(none + second@ =~= second@);
    }
    let ghost middle = within;
    let simple_start = match simple_start {
        Err(error) => {
            return (Err(error), Ghost(two));
        },
        Ok(value) => value,
    };
    let (simple_defs, third) = simplify_definitions(
        &own,
        resolver,
        loading,
        &mut within,
        &own,
        Some(scope),
        depth - 1,
    );
    let ghost three = two + third@;
    proof {
        assert(three =~= first@ + (second@ + third@));
        lemma_flat_items_before(
            nested@.items,
            texts(loading@),
            first@,
            depth as nat,
            nested@.items.len(),
            second@ + third@,
        );
        assert(none + (second@ + third@) =~= second@ + third@);
        lemma_simple_before(start@, inner, outside.with_feed(second@), below, third@);
        assert(none + third@ =~= third@);
    }
    let simple_defs = match simple_defs {
        Err(error) => {
            return (Err(error), Ghost(three));
        },
        Ok(value) => value,
    };
    if within.next_id == 0xffff_ffff_ffff_ffff {
        return (Err(SchemaError::new("too many nested grammars")), Ghost(three));
    }
    let tag: u64 = within.next_id + 1;
    let ghost extra = state.extra@;
    let mut i: usize = 0;
    while i < within.extra.len()
        invariant
            i <= within.extra@.len(),
            state.extra@ == with_moved(extra, within.extra@, own@, tag as nat, i as nat),
        decreases within.extra@.len() - i,
    {
        let name = within.extra.key_at(i).clone();
        let value = rewrite_refs(within.extra.value_at(i), &own, tag);
        state.extra.insert(name, value);
        i += 1;
    }
    let ghost extra = state.extra@;
    let mut i: usize = 0;
    while i < simple_defs.len()
        invariant
            i <= simple_defs@.len(),
            state.extra@ == with_nested(extra, simple_defs@, own@, tag as nat, i as nat),
        decreases simple_defs@.len() - i,
    {
        let name = rename(simple_defs.key_at(i).as_str(), tag);
        let value = rewrite_refs(simple_defs.value_at(i), &own, tag);
        state.extra.insert(name, value);
        i += 1;
    }
    state.next_id = tag;
    (Ok(rewrite_refs(&simple_start, &own, tag)), Ghost(three))
}

/// Reduces each pattern in turn; see [`all_simple`].
fn simplify_all<R: SchemaResolver>(
    values: &Vec<Pattern>,
    resolver: &R,
    loading: &Vec<String>,
    state: &mut Composition,
    scope: &Definitions,
    parent_scope: Option<&Definitions>,
    depth: u64,
) -> (r: (Result<Vec<Pattern>, SchemaError>, Ghost<Feed>))
    ensures
        consistent(resolver, r.1@),
        all_simple(
            patterns_of(values@),
            place_of(loading, scope, parent_scope),
            old(state).with_feed(r.1@),
            depth as nat,
            values@.len(),
        ) == all_reduced(r.0, *final(state)),
    decreases 2 * depth, values, 0nat,
{
    let ghost models = patterns_of(values@);
    let ghost place = place_of(loading, scope, parent_scope);
    let ghost first = *state;
    let ghost none: Feed = Seq::empty();
    let ghost mut log: Feed = Seq::empty();
    let mut out: Vec<Pattern> = Vec::new();
    let mut i: usize = 0;
    assert(patterns_of(out@) =~= Seq::<PatternModel>::empty());
    while i < values.len()
        invariant
            i <= values.len(),
            models == patterns_of(values@),
            place == place_of(loading, scope, parent_scope),
            first == *old(state),
            none == Seq::<Exchange>::empty(),
            consistent(resolver, log),
            all_simple(models, place, first.with_feed(log), depth as nat, i as nat) == Ok::<
                (Seq<PatternModel>, StateModel),
                Stop,
            >((patterns_of(out@), state.with_feed(none))),
        decreases values.len() - i,
    {
        let ghost middle = *state;
        let (result, more) = simplify_pattern(
            &values[i],
            resolver,
            loading,
            state,
            scope,
            parent_scope,
            depth,
        );
        proof {
            lemma_all_simple_before(
                models,
                place,
                first.with_feed(log),
                depth as nat,
                i as nat,
                more@,
            );
            assert(none + more@ =~= more@);
            assert(followed(middle.with_feed(none), more@) == middle.with_feed(more@));
            log = log + more@;
        }
        match result {
            Err(error) => {
                proof {
                    lemma_all_simple_first(
                        models,
                        place,
                        first.with_feed(log),
                        depth as nat,
                        (i + 1) as nat,
                    );
                }
                return (Err(error), Ghost(log));
            },
            Ok(value) => {
                let ghost before = patterns_of(out@);
                out.push(value);
                assert(patterns_of(out@) =~= before.push(value@));
            },
        }
        i += 1;
    }
    (Ok(out), Ghost(log))
}

/// The first error of a prefix is that of all.
proof fn lemma_all_simple_first(
    s: Seq<PatternModel>,
    place: PlaceModel,
    state: StateModel,
    depth: nat,
    n: nat,
)
    requires
        n <= s.len(),
        all_simple(s, place, state, depth, n) is Err,
    ensures
        all_simple(s, place, state, depth, s.len()) == all_simple(s, place, state, depth, n),
    decreases s.len() - n,
{
    if n < s.len() {
        lemma_all_simple_first(s, place, state, depth, n + 1);
    }
}

/// Reduces each named pattern in turn; see [`simple_definitions`].
fn simplify_definitions<R: SchemaResolver>(
    definitions: &Definitions,
    resolver: &R,
    loading: &Vec<String>,
    state: &mut Composition,
    scope: &Definitions,
    parent_scope: Option<&Definitions>,
    depth: u64,
) -> (r: (Result<Definitions, SchemaError>, Ghost<Feed>))
    ensures
        consistent(resolver, r.1@),
        simple_definitions(
            definitions@,
            place_of(loading, scope, parent_scope),
            old(state).with_feed(r.1@),
            depth as nat,
            definitions@.len(),
        ) == definitions_reduced(r.0, *final(state)),
    decreases 2 * depth + 1, definitions, 2nat,
{
    let ghost models = definitions@;
    let ghost place = place_of(loading, scope, parent_scope);
    let ghost first = *state;
    let ghost none: Feed = Seq::empty();
    let ghost mut log: Feed = Seq::empty();
    let mut out: Definitions = StringMap::new();
    let mut i: usize = 0;
    while i < definitions.len()
        invariant
            i <= definitions@.len(),
            models == definitions@,
            place == place_of(loading, scope, parent_scope),
            first == *old(state),
            none == Seq::<Exchange>::empty(),
            consistent(resolver, log),
            simple_definitions(models, place, first.with_feed(log), depth as nat, i as nat)
                == Ok::<(Defs, StateModel), Stop>((out@, state.with_feed(none))),
        decreases definitions@.len() - i,
    {
        let ghost middle = *state;
        let (result, more) = simplify_pattern(
            definitions.value_at(i),
            resolver,
            loading,
            state,
            scope,
            parent_scope,
            depth,
        );
        proof {
            lemma_simple_definitions_before(
                models,
                place,
                first.with_feed(log),
                depth as nat,
                i as nat,
                more@,
            );
            assert(none + more@ =~= more@);
            assert(followed(middle.with_feed(none), more@) == middle.with_feed(more@));
            log = log + more@;
        }
        match result {
            Err(error) => {
                proof {
                    lemma_simple_definitions_first(
                        models,
                        place,
                        first.with_feed(log),
                        depth as nat,
                        (i + 1) as nat,
                    );
                }
                return (Err(error), Ghost(log));
            },
            Ok(value) => {
                out.insert(definitions.key_at(i).clone(), value);
            },
        }
        i += 1;
    }
    (Ok(out), Ghost(log))
}

/// The first error of a prefix is that of all.
proof fn lemma_simple_definitions_first(
    defs: Defs,
    place: PlaceModel,
    state: StateModel,
    depth: nat,
    n: nat,
)
    requires
        n <= defs.len(),
        simple_definitions(defs, place, state, depth, n) is Err,
    ensures
        simple_definitions(defs, place, state, depth, defs.len()) == simple_definitions(
            defs,
            place,
            state,
            depth,
            n,
        ),
    decreases defs.len() - n,
{
    if n < defs.len() {
        lemma_simple_definitions_first(defs, place, state, depth, n + 1);
    }
}

// ---------------------------------------------------------------------
// Schemas
// ---------------------------------------------------------------------

/// The first `n` of some named patterns added to others.
pub open spec fn extended(defs: Defs, more: Defs, n: nat) -> Defs
    decreases n,
{
    if n == 0 || n > more.len() {
        defs
    } else {
        inserted(extended(defs, more, (n - 1) as nat), more[n - 1].0, more[n - 1].1)
    }
}

/// The state from which composition starts.
pub open spec fn initial_state(feed: Feed) -> StateModel {
    StateModel { extra: Seq::empty(), next_id: 0, feed }
}

/// A schema composed from its start and its named patterns, and the exchanges that are
/// left.
#[verifier::opaque]
pub open spec fn defined_schema(
    start: PatternModel,
    defs: Defs,
    feed: Feed,
    depth: nat,
) -> Result<(SchemaModel, Feed), Stop> {
    let place = PlaceModel { loading: Seq::empty(), scope: defs, parent: None };
    match simple(start, place, initial_state(feed), depth) {
        Err(stop) => Err(stop),
        Ok((first, middle)) => match simple_definitions(defs, place, middle, depth, defs.len()) {
            Err(stop) => Err(stop),
            Ok((simple_defs, after)) => Ok(
                (
                    SchemaModel {
                        start: first,
                        definitions: extended(simple_defs, after.extra, after.extra.len()),
                    },
                    after.feed,
                ),
            ),
        },
    }
}

/// A grammar composed, and the exchanges that are left.
pub open spec fn grammar_schema(grammar: GrammarModel, feed: Feed, depth: nat) -> Result<
    (SchemaModel, Feed),
    Stop,
> {
    match flat_items(grammar.items, Seq::empty(), feed, depth, grammar.items.len()) {
        Err(stop) => Err(stop),
        Ok((items, rest)) => match merged_items(items, "grammar has no start"@) {
            Err(message) => Err(Some(message)),
            Ok((start, defs)) => match recursion_problem(start, defs, depth) {
                Some(message) => Err(Some(message)),
                None => defined_schema(start, defs, rest, depth),
            },
        },
    }
}

/// A schema composed but not yet checked, and the exchanges that are left.
pub open spec fn root_schema(root: RootModel, feed: Feed, depth: nat) -> Result<
    (SchemaModel, Feed),
    Stop,
> {
    match root {
        RootModel::Pattern(pattern) => {
            let place = PlaceModel {
                loading: Seq::empty(),
                scope: Seq::empty(),
                parent: None,
            };
            match simple(pattern, place, initial_state(feed), depth) {
                Err(stop) => Err(stop),
                Ok((start, after)) => Ok(
                    (SchemaModel { start, definitions: after.extra }, after.feed),
                ),
            }
        },
        RootModel::Grammar(grammar) => grammar_schema(grammar, feed, depth),
    }
}

/// Checks where patterns stand in those of the first `n` named patterns that the start does
/// not reach. The others were checked where they are referred to.
pub open spec fn restrict_unreached(defs: Defs, names: Names, passed: Passed, depth: nat, n: nat) -> Result<
    Passed,
    Text,
>
    decreases n,
{
    if n == 0 || n > defs.len() {
        Ok(passed)
    } else {
        match restrict_unreached(defs, names, passed, depth, (n - 1) as nat) {
            Err(message) => Err(message),
            Ok(before) => if has_key(names, defs[n - 1].0) {
                Ok(before)
            } else {
                restrict(
                    defs[n - 1].1,
                    inside_nothing(),
                    defs,
                    Seq::empty(),
                    before,
                    depth,
                )
            },
        }
    }
}

/// The complaint about the groups and interleaves of the first `n` named patterns.
pub open spec fn defs_groups_problem(defs: Defs, depth: nat, n: nat) -> Option<Text>
    decreases n,
{
    if n == 0 || n > defs.len() {
        None
    } else {
        match defs_groups_problem(defs, depth, (n - 1) as nat) {
            Some(message) => Some(message),
            None => groups_problem(defs[n - 1].1, defs, depth),
        }
    }
}

/// The first complaint about a composed schema.
pub open spec fn schema_problem(schema: SchemaModel, depth: nat) -> Option<Text> {
    let defs = schema.definitions;
    let names = reached(schema.start, defs, Seq::empty(), depth);
    match recursion_problem(schema.start, defs, depth) {
        Some(message) => Some(message),
        None => match restrict(
            schema.start,
            inside_nothing(),
            defs,
            Seq::empty(),
            Seq::empty(),
            depth,
        ) {
            Err(message) => Some(message),
            Ok(passed) => match restrict_unreached(defs, names, passed, depth, defs.len()) {
                Err(message) => Some(message),
                Ok(_) => match groups_problem(schema.start, defs, depth) {
                    Some(message) => Some(message),
                    None => match defs_groups_problem(defs, depth, defs.len()) {
                        Some(message) => Some(message),
                        None => start_problem(schema.start, defs, Seq::empty(), depth),
                    },
                },
            },
        },
    }
}

/// A schema composed and checked, where the exchanges with the resolver are those given and
/// no others.
pub open spec fn compiled(root: RootModel, log: Feed) -> Result<SchemaModel, Stop> {
    match root_schema(root, log, MAX_DEPTH as nat) {
        Err(stop) => Err(stop),
        Ok((schema, rest)) => if rest.len() > 0 {
            Err(None)
        } else {
            match schema_problem(schema, MAX_DEPTH as nat) {
                Some(message) => Err(Some(message)),
                None => Ok(schema),
            }
        },
    }
}

/// What a composed schema comes to, where all exchanges were needed.
pub open spec fn schema_result(r: Result<CompiledSchema, SchemaError>) -> Result<
    (SchemaModel, Feed),
    Stop,
> {
    match r {
        Ok(schema) => Ok((schema@, Seq::empty())),
        Err(error) => Err(Some(error@)),
    }
}

/// Adds named patterns.
fn extend_definitions(definitions: &mut Definitions, more: &Definitions)
    ensures
        final(definitions)@ == extended(old(definitions)@, more@, more@.len()),
{
    let ghost before = definitions@;
    let mut i: usize = 0;
    while i < more.len()
        invariant
            i <= more@.len(),
            definitions@ == extended(before, more@, i as nat),
        decreases more@.len() - i,
    {
        definitions.insert(more.key_at(i).clone(), copy_pattern(more.value_at(i)));
        i += 1;
    }
}

/// Composes a schema from its start and its named patterns; see [`defined_schema`].
fn simplify_defined<R: SchemaResolver>(
    start: &Pattern,
    definitions: &Definitions,
    resolver: &R,
    depth: u64,
) -> (r: (Result<CompiledSchema, SchemaError>, Ghost<Feed>))
    ensures
        consistent(resolver, r.1@),
        defined_schema(start@, definitions@, r.1@, depth as nat) == schema_result(r.0),
{
    reveal(defined_schema);
    let ghost none: Feed = Seq::empty();
    let loading: Vec<String> = Vec::new();
    assert(texts(loading@) =~= Seq::<Text>::empty());
    let mut state = Composition { extra: StringMap::new(), next_id: 0 };
    let ghost initial = state;
    let ghost place = place_of(&loading, definitions, None);
    let (simple_start, first) = simplify_pattern(
        start,
        resolver,
        &loading,
        &mut state,
        definitions,
        None,
        depth,
    );
    assert(initial.with_feed(first@) =~= initial_state(first@));
    let simple_start = match simple_start {
        Err(error) => {
            return (Err(error), first);
        },
        Ok(value) => value,
    };
    let (simple_defs, second) = simplify_definitions(
        definitions,
        resolver,
        &loading,
        &mut state,
        definitions,
        None,
        depth,
    );
    let ghost two = first@ + second@;
    proof {
        lemma_simple_before(start@, place, initial_state(first@), depth as nat, second@);
        assert(none + second@ =~= second@);
        assert(followed(initial_state(first@), second@) =~= initial_state(two));
    }
    let mut simple_defs = match simple_defs {
        Err(error) => {
            return (Err(error), Ghost(two));
        },
        Ok(value) => value,
    };
    extend_definitions(&mut simple_defs, &state.extra);
    (Ok(CompiledSchema { start: simple_start, definitions: simple_defs }), Ghost(two))
}

/// Composes a grammar; see [`grammar_schema`].
fn simplify_grammar<R: SchemaResolver>(grammar: &Grammar, resolver: &R) -> (r: (
    Result<CompiledSchema, SchemaError>,
    Ghost<Feed>,
))
    ensures
        consistent(resolver, r.1@),
        grammar_schema(grammar@, r.1@, MAX_DEPTH as nat) == schema_result(r.0),
{
    proof {
        grammar.lemma_model();
    }
    let ghost none: Feed = Seq::empty();
    let loading: Vec<String> = Vec::new();
    assert(texts(loading@) =~= Seq::<Text>::empty());
    let (flat, first) = flatten_items(&grammar.items, resolver, &loading, MAX_DEPTH);
    let items = match flat {
        Err(error) => {
            return (Err(error), first);
        },
        Ok(items) => items,
    };
    let (start, definitions) = match merge_items(&items, "grammar has no start") {
        Err(error) => {
            return (Err(error), first);
        },
        Ok(pair) => pair,
    };
    match check_illegal_recursion(&start, &definitions) {
        Err(error) => {
            return (Err(error), first);
        },
        Ok(_) => {},
    }
    let (schema, second) = simplify_defined(&start, &definitions, resolver, MAX_DEPTH);
    proof {
        lemma_flat_items_before(
            grammar@.items,
            Seq::empty(),
            first@,
            MAX_DEPTH as nat,
            grammar@.items.len(),
            second@,
        );
        assert(none + second@ =~= second@);
    }
    (schema, Ghost(first@ + second@))
}

/// Composes a schema without checking it; see [`root_schema`].
fn simplify_root<R: SchemaResolver>(document: &SchemaDocument, resolver: &R) -> (r: (
    Result<CompiledSchema, SchemaError>,
    Ghost<Feed>,
))
    ensures
        consistent(resolver, r.1@),
        root_schema(document@, r.1@, MAX_DEPTH as nat) == schema_result(r.0),
{
    match &document.root {
        Root::Pattern(pattern) => {
            let loading: Vec<String> = Vec::new();
            let scope: Definitions = StringMap::new();
            assert(texts(loading@) =~= Seq::<Text>::empty());
            let mut state = Composition { extra: StringMap::new(), next_id: 0 };
            let ghost initial = state;
            let (result, log) = simplify_pattern(
                pattern,
                resolver,
                &loading,
                &mut state,
                &scope,
                None,
                MAX_DEPTH,
            );
            assert(initial.with_feed(log@) =~= initial_state(log@));
            match result {
                Err(error) => (Err(error), log),
                Ok(start) => (Ok(CompiledSchema { start, definitions: state.extra }), log),
            }
        },
        Root::Grammar(grammar) => simplify_grammar(grammar, resolver),
    }
}

/// The first complaint of a prefix is that of all.
proof fn lemma_unreached_first(defs: Defs, names: Names, passed: Passed, depth: nat, n: nat)
    requires
        n <= defs.len(),
        restrict_unreached(defs, names, passed, depth, n) is Err,
    ensures
        restrict_unreached(defs, names, passed, depth, defs.len()) == restrict_unreached(
            defs,
            names,
            passed,
            depth,
            n,
        ),
    decreases defs.len() - n,
{
    if n < defs.len() {
        lemma_unreached_first(defs, names, passed, depth, n + 1);
    }
}

/// The first complaint of a prefix is that of all.
proof fn lemma_defs_groups_first(defs: Defs, depth: nat, n: nat)
    requires
        n <= defs.len(),
        defs_groups_problem(defs, depth, n) is Some,
    ensures
        defs_groups_problem(defs, depth, defs.len()) == defs_groups_problem(defs, depth, n),
    decreases defs.len() - n,
{
    if n < defs.len() {
        lemma_defs_groups_first(defs, depth, n + 1);
    }
}

/// Checks a composed schema; see [`schema_problem`].
fn check_schema(schema: &CompiledSchema) -> (r: Result<(), SchemaError>)
    ensures
        verdict(r) == schema_problem(schema@, MAX_DEPTH as nat),
{
    let definitions = &schema.definitions;
    let ghost defs = definitions@;
    let ghost depth = MAX_DEPTH as nat;
    let recursion = check_illegal_recursion(&schema.start, definitions);
    if recursion.is_err() {
        return recursion;
    }
    let nothing = Inside { attribute: false, list: false, one_or_more: false, container: false };
    let mut scope = RestrictionScope::new();
    let restricted = check_restrictions(
        &schema.start,
        nothing,
        definitions,
        &mut scope,
        MAX_DEPTH,
    );
    if restricted.is_err() {
        return restricted;
    }
    let ghost passed = scope.done();
    let mut names: StringMap<()> = StringMap::new();
    collect_reachable_defines(&schema.start, definitions, &mut names, MAX_DEPTH);
    let mut i: usize = 0;
    while i < definitions.len()
        invariant
            i <= definitions@.len(),
            definitions == schema.definitions,
            defs == definitions@,
            depth == MAX_DEPTH as nat,
            nothing == inside_nothing(),
            names@ == reached(schema@.start, defs, Seq::empty(), depth),
            recursion_problem(schema@.start, defs, depth) is None,
            restrict(
                schema@.start,
                inside_nothing(),
                defs,
                Seq::empty(),
                Seq::empty(),
                depth,
            ) == Ok::<Passed, Text>(passed),
            scope.in_progress() == Seq::<(Text, Inside)>::empty(),
            restrict_unreached(defs, names@, passed, depth, i as nat) == Ok::<Passed, Text>(
                scope.done(),
            ),
        decreases definitions@.len() - i,
    {
        if !names.contains_key(definitions.key_at(i).as_str()) {
            let result = check_restrictions(
                definitions.value_at(i),
                nothing,
                definitions,
                &mut scope,
                MAX_DEPTH,
            );
            if result.is_err() {
                proof {
                    lemma_unreached_first(defs, names@, passed, depth, (i + 1) as nat);
                }
                return result;
            }
        }
        i += 1;
    }
    let groups = check_group_restrictions(&schema.start, definitions, MAX_DEPTH);
    if groups.is_err() {
        return groups;
    }
    let mut j: usize = 0;
    while j < definitions.len()
        invariant
            j <= definitions@.len(),
            definitions == schema.definitions,
            defs == definitions@,
            depth == MAX_DEPTH as nat,
            names@ == reached(schema@.start, defs, Seq::empty(), depth),
            recursion_problem(schema@.start, defs, depth) is None,
            restrict(
                schema@.start,
                inside_nothing(),
                defs,
                Seq::empty(),
                Seq::empty(),
                depth,
            ) == Ok::<Passed, Text>(passed),
            restrict_unreached(defs, names@, passed, depth, defs.len()) is Ok,
            groups_problem(schema@.start, defs, depth) is None,
            defs_groups_problem(defs, depth, j as nat) is None,
        decreases definitions@.len() - j,
    {
        let result = check_group_restrictions(definitions.value_at(j), definitions, MAX_DEPTH);
        if result.is_err() {
            proof {
                lemma_defs_groups_first(defs, depth, (j + 1) as nat);
            }
            return result;
        }
        j += 1;
    }
    let mut visiting: Vec<String> = Vec::new();
    assert(texts(visiting@) =~= Seq::<Text>::empty());
    check_start_restrictions(&schema.start, definitions, &mut visiting, MAX_DEPTH)
}

/// Composes `document` into a [`CompiledSchema`], resolving any reference to another schema
/// that it uses via `resolver`. See [`crate::Schema::compile`] for a convenience wrapper
/// that also parses.
///
/// The result is [`compiled`] from the exchanges with the resolver: each of them is a
/// question that the schema led to and an answer that the resolver may give to it, in the
/// order in which they were needed.
pub fn simplify<R: SchemaResolver>(document: &SchemaDocument, resolver: &R) -> (r: Result<
    CompiledSchema,
    SchemaError,
>)
    ensures
        exists|log: Feed|
            consistent(resolver, log) && #[trigger] compiled(document@, log) == (match r {
                Ok(schema) => Ok::<SchemaModel, Stop>(schema@),
                Err(error) => Err::<SchemaModel, Stop>(Some(error@)),
            }),
{
    let (result, log) = simplify_root(document, resolver);
    match result {
        Err(error) => {
            assert(compiled(document@, log@) == Err::<SchemaModel, Stop>(Some(error@)));
            Err(error)
        },
        Ok(schema) => match check_schema(&schema) {
            Err(error) => {
                assert(compiled(document@, log@) == Err::<SchemaModel, Stop>(Some(error@)));
                Err(error)
            },
            Ok(_) => {
                assert(compiled(document@, log@) == Ok::<SchemaModel, Stop>(schema@));
                Ok(schema)
            },
        },
    }
}

} // verus!
