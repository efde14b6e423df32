//! What composition makes of definitions and of the forms that stand for others: the meaning
//! of what comes out, in terms of the meaning of what goes in.
use vstd::prelude::*;

use vstd::multiset::Multiset;

use crate::algebra::{choice_of, group_of, one_or_more_of};
use crate::attribute_order::Attribute;
use crate::compose::{
    agreed_combine, all_simple, define_fragments, fragment_bodies, merged, merged_definitions,
    merged_items, operands, own_problem, rebuilt, simple, start_fragments, without_combine,
    FragmentModel, PlaceModel, StateModel,
};
use crate::grammar::{Combine, ItemModel, PatternModel};
use crate::language::{all_text, positive};
use crate::matching::{
    lemma_choice, lemma_containers, lemma_empty, lemma_one_share, lemma_shares, lemma_sharing,
    makes, meets, nothing, repeated, shared, some_meet, some_repeated, Given, Setting,
};
use crate::string_map::{has_key, lemma_inserted_lookup, lemma_lookup_index, lookup};
use crate::text::Text;

verus! {

// ---------------------------------------------------------------------
// Shares
// ---------------------------------------------------------------------

/// Whether attributes and children are made of the first `n` shares: one after the other,
/// where there is an order, or else merged.
pub open spec fn parted(ordered: bool, shares: Seq<Given>, n: nat, m: Given) -> bool
    decreases n,
{
    if n == 0 || n > shares.len() {
        m == nothing()
    } else {
        exists|a: Given|
            #[trigger] makes(ordered, a, shares[n - 1], m) && parted(
                ordered,
                shares,
                (n - 1) as nat,
                a,
            )
    }
}

/// Whether shares, one for each pattern, are described by it, and make up what is given.
pub open spec fn apportioned(
    ordered: bool,
    s: Seq<PatternModel>,
    shares: Seq<Given>,
    m: Given,
    e: Setting,
    depth: nat,
) -> bool {
    &&& shares.len() == s.len()
    &&& parted(ordered, shares, shares.len(), m)
    &&& forall|i: int| 0 <= i < s.len() ==> meets(#[trigger] s[i], shares[i], e, depth)
}

/// Only the first shares count.
proof fn lemma_parted_prefix(ordered: bool, s: Seq<Given>, t: Seq<Given>, n: nat, m: Given)
    requires
        n <= s.len(),
        n <= t.len(),
        forall|i: int| 0 <= i < n ==> #[trigger] s[i] == t[i],
        parted(ordered, s, n, m),
    ensures
        parted(ordered, t, n, m),
    decreases n,
{
    if n > 0 {
        let a = choose|a: Given|
            #[trigger] makes(ordered, a, s[n - 1], m) && parted(ordered, s, (n - 1) as nat, a);
        lemma_parted_prefix(ordered, s, t, (n - 1) as nat, a);
        assert(s[n - 1] == t[n - 1]);
        assert(makes(ordered, a, t[n - 1], m));
    }
}

/// What is described in shares is made of them.
proof fn lemma_shares_of(
    ordered: bool,
    s: Seq<PatternModel>,
    n: nat,
    m: Given,
    e: Setting,
    depth: nat,
) -> (shares: Seq<Given>)
    requires
        n <= s.len(),
        shared(ordered, s, n, m, e, depth),
    ensures
        shares.len() == n,
        parted(ordered, shares, n, m),
        forall|i: int| 0 <= i < n ==> meets(#[trigger] s[i], shares[i], e, depth),
    decreases n,
{
    if n == 0 {
        Seq::empty()
    } else {
        let k = (n - 1) as nat;
        let (a, b) = lemma_shares(ordered, s, n, m, e, depth);
        let rest = lemma_shares_of(ordered, s, k, a, e, depth);
        let all = rest.push(b);
        lemma_parted_prefix(ordered, rest, all, k, a);
        assert(makes(ordered, a, all[n - 1], m));
        all
    }
}

/// What is made of shares that patterns describe is described in shares.
proof fn lemma_of_shares(
    ordered: bool,
    s: Seq<PatternModel>,
    shares: Seq<Given>,
    n: nat,
    m: Given,
    e: Setting,
    depth: nat,
)
    requires
        n <= s.len(),
        n <= shares.len(),
        parted(ordered, shares, n, m),
        forall|i: int| 0 <= i < n ==> meets(#[trigger] s[i], shares[i], e, depth),
    ensures
        shared(ordered, s, n, m, e, depth),
    decreases n,
{
    if n > 0 {
        let k = (n - 1) as nat;
        let a = choose|a: Given|
            #[trigger] makes(ordered, a, shares[n - 1], m) && parted(ordered, shares, k, a);
        lemma_of_shares(ordered, s, shares, k, a, e, depth);
        assert(meets(s[n - 1], shares[n - 1], e, depth));
        lemma_sharing(ordered, s, n, a, shares[n - 1], m, e, depth);
    }
}

/// What patterns describe together, each its share.
proof fn lemma_apportioned(ordered: bool, s: Seq<PatternModel>, m: Given, e: Setting, depth: nat)
    ensures
        shared(ordered, s, s.len(), m, e, depth) <==> exists|shares: Seq<Given>| #[trigger]
            apportioned(ordered, s, shares, m, e, depth),
{
    if shared(ordered, s, s.len(), m, e, depth) {
        let shares = lemma_shares_of(ordered, s, s.len(), m, e, depth);
        assert(apportioned(ordered, s, shares, m, e, depth));
    }
    if exists|shares: Seq<Given>| #[trigger] apportioned(ordered, s, shares, m, e, depth) {
        let shares = choose|shares: Seq<Given>| #[trigger]
            apportioned(ordered, s, shares, m, e, depth);
        lemma_of_shares(ordered, s, shares, s.len(), m, e, depth);
    }
}

// ---------------------------------------------------------------------
// Several definitions of one name
// ---------------------------------------------------------------------

/// The patterns that the first `n` components define a name as, in their order.
pub open spec fn definitions_of(items: Seq<ItemModel>, name: Text, n: nat) -> Seq<PatternModel>
    decreases n,
{
    if n == 0 || n > items.len() {
        Seq::empty()
    } else {
        definitions_of(items, name, (n - 1) as nat) + match items[n - 1] {
            ItemModel::Define { name: other, combine, body } => if other == name {
                body
            } else {
                Seq::empty()
            },
            _ => Seq::empty(),
        }
    }
}

/// Whether a component defines a name, and says how it combines with others of that name.
pub open spec fn defines(item: ItemModel, name: Text, how: Option<Combine>) -> bool {
    match item {
        ItemModel::Define { name: other, combine, body } => other == name && combine == how,
        _ => false,
    }
}

/// Whether some of the first `n` components defines a name and says how it combines.
pub open spec fn some_defines(
    items: Seq<ItemModel>,
    name: Text,
    how: Option<Combine>,
    n: nat,
) -> bool {
    exists|i: int| 0 <= i < n && i < items.len() && defines(#[trigger] items[i], name, how)
}

/// Whether some fragment says how it combines.
spec fn some_fragment(fragments: Seq<FragmentModel>, how: Option<Combine>, n: nat) -> bool {
    exists|i: int| 0 <= i < n && (#[trigger] fragments[i]).combine == how
}

/// The fragments of a name among the first `n` components.
spec fn fragments_named(items: Seq<ItemModel>, name: Text, n: nat) -> Seq<FragmentModel> {
    match lookup(define_fragments(items, n), name) {
        Some(list) => list,
        None => Seq::empty(),
    }
}

/// The fragments of a name, gathered from the components.
proof fn lemma_gathered(items: Seq<ItemModel>, name: Text, n: nat)
    requires
        n <= items.len(),
    ensures
        ({
            let all = define_fragments(items, n);
            let own = fragments_named(items, name, n);
            &&& has_key(all, name) <==> exists|how: Option<Combine>| #[trigger]
                some_defines(items, name, how, n)
            &&& fragment_bodies(own, own.len()) == definitions_of(items, name, n)
            &&& forall|how: Option<Combine>|
                some_fragment(own, how, own.len()) == #[trigger] some_defines(items, name, how, n)
        }),
    decreases n,
{
    let all = define_fragments(items, n);
    if n == 0 {
        assert(!has_key(all, name));
        assert(fragments_named(items, name, n).len() == 0);
    } else {
        let k = (n - 1) as nat;
        lemma_gathered(items, name, k);
        let rest = define_fragments(items, k);
        let before = fragments_named(items, name, k);
        match items[n - 1] {
            ItemModel::Define { name: other, combine, body } => {
                let list = (match lookup(rest, other) {
                    Some(list) => list,
                    None => Seq::empty(),
                }).push(FragmentModel { combine, body });
                lemma_inserted_lookup(rest, other, list, name);
                if other == name {
                    assert(list == before.push(FragmentModel { combine, body }));
                    lemma_bodies_prefix(before, list, before.len());
                    assert(items[k as int] == items[n - 1]);
                    assert(some_defines(items, name, combine, n));
                    assert(fragments_named(items, name, n) == list);
                    assert forall|how: Option<Combine>|
                        some_fragment(list, how, list.len()) == #[trigger] some_defines(
                            items,
                            name,
                            how,
                            n,
                        ) by {
                        assert(some_fragment(before, how, before.len()) == some_defines(
                            items,
                            name,
                            how,
                            k,
                        ));
                        if some_fragment(list, how, list.len()) {
                            let i = choose|i: int|
                                0 <= i < list.len() && (#[trigger] list[i]).combine == how;
                            if i < before.len() {
                                assert(before[i].combine == how);
                                assert(some_fragment(before, how, before.len()));
                                let j = choose|j: int|
                                    0 <= j < k && j < items.len() && defines(
                                        #[trigger] items[j],
                                        name,
                                        how,
                                    );
                                assert(defines(items[j], name, how));
                            } else {
                                assert(defines(items[k as int], name, how));
                            }
                        }
                        if some_defines(items, name, how, n) {
                            let j = choose|j: int|
                                0 <= j < n && j < items.len() && defines(
                                    #[trigger] items[j],
                                    name,
                                    how,
                                );
                            if j < k {
                                assert(some_defines(items, name, how, k));
                                let i = choose|i: int|
                                    0 <= i < before.len() && (#[trigger] before[i]).combine
                                        == how;
                                assert(list[i].combine == how);
                            } else {
                                assert(list[before.len() as int].combine == how);
                            }
                        }
                    }
                } else {
                    assert(fragments_named(items, name, n) == before);
                    lemma_not_defining(items, name, n);
                    assert(definitions_of(items, name, n) =~= definitions_of(items, name, k));
                }
            },
            _ => {
                assert(fragments_named(items, name, n) == before);
                lemma_not_defining(items, name, n);
                assert(definitions_of(items, name, n) =~= definitions_of(items, name, k));
            },
        }
    }
}

/// A component that does not define a name changes nothing for it.
proof fn lemma_not_defining(items: Seq<ItemModel>, name: Text, n: nat)
    requires
        0 < n <= items.len(),
        items[n - 1] is Define ==> items[n - 1]->Define_name != name,
    ensures
        forall|how: Option<Combine>| #[trigger]
            some_defines(items, name, how, n) == some_defines(items, name, how, (n - 1) as nat),
        (exists|how: Option<Combine>| #[trigger] some_defines(items, name, how, n)) == exists|
            how: Option<Combine>,
        | #[trigger] some_defines(items, name, how, (n - 1) as nat),
{
    let k = (n - 1) as nat;
    assert forall|how: Option<Combine>| #[trigger]
        some_defines(items, name, how, n) == some_defines(items, name, how, k) by {
        if some_defines(items, name, how, n) {
            let j = choose|j: int|
                0 <= j < n && j < items.len() && defines(#[trigger] items[j], name, how);
            assert(j < k);
            assert(defines(items[j], name, how));
        }
        if some_defines(items, name, how, k) {
            let j = choose|j: int|
                0 <= j < k && j < items.len() && defines(#[trigger] items[j], name, how);
            assert(defines(items[j], name, how));
        }
    }
    if exists|how: Option<Combine>| #[trigger] some_defines(items, name, how, k) {
        let how = choose|how: Option<Combine>| #[trigger] some_defines(items, name, how, k);
        assert(some_defines(items, name, how, n));
    }
}

/// Only the first fragments count.
proof fn lemma_bodies_prefix(s: Seq<FragmentModel>, t: Seq<FragmentModel>, n: nat)
    requires
        n <= s.len(),
        n <= t.len(),
        forall|i: int| 0 <= i < n ==> #[trigger] s[i] == t[i],
    ensures
        fragment_bodies(s, n) == fragment_bodies(t, n),
    decreases n,
{
    if n > 0 {
        lemma_bodies_prefix(s, t, (n - 1) as nat);
        assert(s[n - 1] == t[n - 1]);
    }
}

/// What fragments agree on is what each of them says that says anything.
proof fn lemma_agreed(fragments: Seq<FragmentModel>, n: nat)
    requires
        n <= fragments.len(),
    ensures
        agreed_combine(fragments, n) is Err <==> some_fragment(
            fragments,
            Some(Combine::Choice),
            n,
        ) && some_fragment(fragments, Some(Combine::Interleave), n),
        agreed_combine(fragments, n) matches Ok(how) ==> match how {
            Some(method) => some_fragment(fragments, Some(method), n),
            None => !some_fragment(fragments, Some(Combine::Choice), n) && !some_fragment(
                fragments,
                Some(Combine::Interleave),
                n,
            ),
        },
    decreases n,
{
    if n > 0 {
        let k = (n - 1) as nat;
        lemma_agreed(fragments, k);
        let last = fragments[n - 1].combine;
        assert forall|how: Option<Combine>| #[trigger] some_fragment(fragments, how, n) == (
        some_fragment(fragments, how, k) || last == how) by {
            if some_fragment(fragments, how, n) {
                let i = choose|i: int| 0 <= i < n && (#[trigger] fragments[i]).combine == how;
                if i < k {
                    assert(fragments[i].combine == how);
                }
            }
            if some_fragment(fragments, how, k) {
                let i = choose|i: int| 0 <= i < k && (#[trigger] fragments[i]).combine == how;
                assert(fragments[i].combine == how);
            }
            if last == how {
                assert(fragments[n - 1].combine == how);
            }
        }
    }
}

/// The named patterns that components come to, each merged from its fragments.
proof fn lemma_merged_of(fragments: Seq<(Text, Seq<FragmentModel>)>, n: nat, name: Text)
    requires
        n <= fragments.len(),
        merged_definitions(fragments, n) is Ok,
        forall|i: int, j: int|
            0 <= i < j < fragments.len() ==> (#[trigger] fragments[i]).0 != (
            #[trigger] fragments[j]).0,
    ensures
        ({
            let defs = merged_definitions(fragments, n)->Ok_0;
            &&& has_key(defs, name) <==> exists|i: int|
                0 <= i < n && (#[trigger] fragments[i]).0 == name
            &&& forall|i: int|
                0 <= i < n && (#[trigger] fragments[i]).0 == name ==> merged(
                    name,
                    fragments[i].1,
                ) == Ok::<Option<PatternModel>, Text>(lookup(defs, name))
        }),
    decreases n,
{
    if n > 0 {
        let k = (n - 1) as nat;
        lemma_merged_of(fragments, k, name);
        let before = merged_definitions(fragments, k)->Ok_0;
        let pattern = merged(fragments[n - 1].0, fragments[n - 1].1)->Ok_0->0;
        lemma_inserted_lookup(before, fragments[n - 1].0, pattern, name);
        assert(fragments[k as int] == fragments[n - 1]);
    }
}

/// The names of gathered fragments are distinct.
proof fn lemma_gathered_distinct(items: Seq<ItemModel>, n: nat)
    ensures
        crate::string_map::sorted(define_fragments(items, n)),
    decreases n,
{
    if n > 0 && n <= items.len() {
        let k = (n - 1) as nat;
        lemma_gathered_distinct(items, k);
        let rest = define_fragments(items, k);
        match items[n - 1] {
            ItemModel::Define { name, combine, body } => {
                let list = (match lookup(rest, name) {
                    Some(list) => list,
                    None => Seq::empty(),
                }).push(FragmentModel { combine, body });
                crate::string_map::lemma_inserted(rest, name, list);
            },
            _ => {},
        }
    }
}

/// What the definitions of a name come to: one definition is the pattern itself. Of several,
/// where some say that they combine by interleaving, what is described is what can be parted
/// into shares, one for each definition and described by it, in whatever order they are
/// merged; where some say that they combine by choice, it is what one of them describes.
pub proof fn law_definitions_combine(
    items: Seq<ItemModel>,
    no_start: Text,
    name: Text,
    m: Given,
    e: Setting,
    depth: nat,
)
    requires
        merged_items(items, no_start) is Ok,
        definitions_of(items, name, items.len()).len() > 0,
    ensures
        ({
            let defs = merged_items(items, no_start)->Ok_0.1;
            let bodies = definitions_of(items, name, items.len());
            let p = lookup(defs, name)->0;
            &&& has_key(defs, name)
            &&& bodies.len() == 1 ==> p == bodies[0]
            &&& bodies.len() > 1 ==> some_defines(
                items,
                name,
                Some(Combine::Interleave),
                items.len(),
            ) != some_defines(items, name, Some(Combine::Choice), items.len())
            &&& bodies.len() > 1 && some_defines(
                items,
                name,
                Some(Combine::Interleave),
                items.len(),
            ) ==> (meets(p, m, e, depth) <==> exists|shares: Seq<Given>| #[trigger]
                apportioned(false, bodies, shares, m, e, depth))
            &&& bodies.len() > 1 && some_defines(
                items,
                name,
                Some(Combine::Choice),
                items.len(),
            ) ==> (meets(p, m, e, depth) <==> exists|i: int|
                0 <= i < bodies.len() && meets(#[trigger] bodies[i], m, e, depth))
        }),
{
    reveal(merged_items);
    let n = items.len();
    let all = define_fragments(items, n);
    let defs = merged_items(items, no_start)->Ok_0.1;
    let bodies = definitions_of(items, name, n);
    lemma_gathered(items, name, n);
    lemma_gathered_distinct(items, n);
    if !has_key(all, name) {
        assert(fragment_bodies(Seq::empty(), 0).len() == 0);
    }
    let at = lemma_lookup_index(all, name);
    assert forall|i: int, j: int| 0 <= i < j < all.len() implies (#[trigger] all[i]).0 != (
    #[trigger] all[j]).0 by {
        crate::text::lemma_text_lt_irreflexive(all[i].0);
    }
    lemma_merged_of(all, all.len(), name);
    let own = all[at].1;
    assert(fragments_named(items, name, n) == own);
    assert(merged(name, own) == Ok::<Option<PatternModel>, Text>(lookup(defs, name)));
    lemma_agreed(own, own.len());
    assert(some_fragment(own, Some(Combine::Interleave), own.len()) == some_defines(
        items,
        name,
        Some(Combine::Interleave),
        n,
    ));
    assert(some_fragment(own, Some(Combine::Choice), own.len()) == some_defines(
        items,
        name,
        Some(Combine::Choice),
        n,
    ));
    lemma_apportioned(false, bodies, m, e, depth);
    if bodies.len() > 1 {
        assert(meets(PatternModel::Choice(bodies), m, e, depth) == some_meet(
            bodies,
            m,
            e,
            depth,
        ));
    }
}

/// How many of the first `n` fragments lack how they combine: some do where there is one.
proof fn lemma_lacking(fragments: Seq<FragmentModel>, n: nat)
    requires
        n <= fragments.len(),
    ensures
        without_combine(fragments, n) > 0 <==> exists|i: int|
            0 <= i < n && (#[trigger] fragments[i]).combine is None,
        without_combine(fragments, n) > 1 <==> exists|i: int, j: int|
            0 <= i < j < n && (#[trigger] fragments[i]).combine is None && (
            #[trigger] fragments[j]).combine is None,
    decreases n,
{
    if n > 0 {
        let k = (n - 1) as nat;
        lemma_lacking(fragments, k);
        if without_combine(fragments, n) > 0 {
            if without_combine(fragments, k) > 0 {
                let i = choose|i: int| 0 <= i < k && (#[trigger] fragments[i]).combine is None;
                assert(fragments[i].combine is None);
            } else {
                assert(fragments[n - 1].combine is None);
            }
        }
        if without_combine(fragments, n) > 1 {
            if without_combine(fragments, k) > 1 {
                let (i, j) = choose|i: int, j: int|
                    0 <= i < j < k && (#[trigger] fragments[i]).combine is None && (
                    #[trigger] fragments[j]).combine is None;
                assert(fragments[i].combine is None && fragments[j].combine is None);
            } else {
                let i = choose|i: int| 0 <= i < k && (#[trigger] fragments[i]).combine is None;
                assert(fragments[i].combine is None && fragments[n - 1].combine is None);
            }
        }
    }
}

/// The patterns of fragments of one pattern each.
proof fn lemma_one_each(fragments: Seq<FragmentModel>, n: nat)
    requires
        n <= fragments.len(),
        forall|i: int| 0 <= i < fragments.len() ==> (#[trigger] fragments[i]).body.len() == 1,
    ensures
        fragment_bodies(fragments, n).len() == n,
        forall|i: int|
            0 <= i < n ==> #[trigger] fragment_bodies(fragments, n)[i] == fragments[i].body[0],
    decreases n,
{
    if n > 0 {
        lemma_one_each(fragments, (n - 1) as nat);
        assert(fragments[n - 1].body.len() == 1);
    }
}

/// Definitions of one pattern each are refused exactly where two of them say that they combine
/// differently, or two do not say how.
pub proof fn law_merging_is_refused_on_conflict(name: Text, fragments: Seq<FragmentModel>)
    requires
        forall|i: int| 0 <= i < fragments.len() ==> (#[trigger] fragments[i]).body.len() == 1,
    ensures
        merged(name, fragments) is Err <==> exists|i: int, j: int|
            0 <= i < j < fragments.len() && ((#[trigger] fragments[i]).combine is None && (
            #[trigger] fragments[j]).combine is None || fragments[i].combine is Some
                && fragments[j].combine is Some && fragments[i].combine != fragments[j].combine),
        merged(name, fragments) == Ok::<Option<PatternModel>, Text>(None) <==> fragments.len()
            == 0,
{
    let n = fragments.len();
    lemma_lacking(fragments, n);
    lemma_agreed(fragments, n);
    lemma_one_each(fragments, n);
    if agreed_combine(fragments, n) is Err {
        let i = choose|i: int|
            0 <= i < n && (#[trigger] fragments[i]).combine == Some(Combine::Choice);
        let j = choose|j: int|
            0 <= j < n && (#[trigger] fragments[j]).combine == Some(Combine::Interleave);
        assert(i != j);
        if i < j {
            assert(fragments[i].combine != fragments[j].combine);
        } else {
            assert(fragments[j].combine != fragments[i].combine);
        }
    }
    if without_combine(fragments, n) > 1 {
        let (i, j) = choose|i: int, j: int|
            0 <= i < j < n && (#[trigger] fragments[i]).combine is None && (
            #[trigger] fragments[j]).combine is None;
        assert(fragments[i].combine is None && fragments[j].combine is None);
    }
    if exists|i: int, j: int|
        0 <= i < j < n && (#[trigger] fragments[i]).combine is Some && (
        #[trigger] fragments[j]).combine is Some && fragments[i].combine
            != fragments[j].combine {
        let (i, j) = choose|i: int, j: int|
            0 <= i < j < n && (#[trigger] fragments[i]).combine is Some && (
            #[trigger] fragments[j]).combine is Some && fragments[i].combine
                != fragments[j].combine;
        if fragments[i].combine == Some(Combine::Choice) {
            assert(fragments[j].combine == Some(Combine::Interleave));
        } else {
            assert(fragments[i].combine == Some(Combine::Interleave));
            assert(fragments[j].combine == Some(Combine::Choice));
        }
        assert(some_fragment(fragments, Some(Combine::Choice), n));
        assert(some_fragment(fragments, Some(Combine::Interleave), n));
    }
    if n > 1 && agreed_combine(fragments, n) == Ok::<Option<Combine>, ()>(None) {
        assert(fragments[0].combine is None) by {
            match fragments[0].combine {
                Some(Combine::Choice) => {
                    assert(some_fragment(fragments, Some(Combine::Choice), n));
                },
                Some(Combine::Interleave) => {
                    assert(some_fragment(fragments, Some(Combine::Interleave), n));
                },
                None => {},
            }
        }
        assert(fragments[1].combine is None) by {
            match fragments[1].combine {
                Some(Combine::Choice) => {
                    assert(some_fragment(fragments, Some(Combine::Choice), n));
                },
                Some(Combine::Interleave) => {
                    assert(some_fragment(fragments, Some(Combine::Interleave), n));
                },
                None => {},
            }
        }
    }
}

/// The patterns that the first `n` components start with, in their order.
pub open spec fn starts_of(items: Seq<ItemModel>, n: nat) -> Seq<PatternModel>
    decreases n,
{
    if n == 0 || n > items.len() {
        Seq::empty()
    } else {
        starts_of(items, (n - 1) as nat) + match items[n - 1] {
            ItemModel::Start { combine, body } => body,
            _ => Seq::empty(),
        }
    }
}

/// Whether some of the first `n` components is a start and says how it combines.
pub open spec fn some_starts(items: Seq<ItemModel>, how: Option<Combine>, n: nat) -> bool {
    exists|i: int|
        0 <= i < n && i < items.len() && (#[trigger] items[i] matches ItemModel::Start {
            combine,
            body,
        } && combine == how)
}

/// The fragments of the start, gathered from the components.
proof fn lemma_starts_gathered(items: Seq<ItemModel>, n: nat)
    requires
        n <= items.len(),
    ensures
        ({
            let own = start_fragments(items, n);
            &&& fragment_bodies(own, own.len()) == starts_of(items, n)
            &&& forall|how: Option<Combine>|
                some_fragment(own, how, own.len()) == #[trigger] some_starts(items, how, n)
        }),
    decreases n,
{
    if n > 0 {
        let k = (n - 1) as nat;
        lemma_starts_gathered(items, k);
        let before = start_fragments(items, k);
        let own = start_fragments(items, n);
        if items[n - 1] is Start {
            lemma_bodies_prefix(before, own, before.len());
        } else {
            assert(starts_of(items, n) =~= starts_of(items, k));
        }
        assert forall|how: Option<Combine>|
            some_fragment(own, how, own.len()) == #[trigger] some_starts(items, how, n) by {
            assert(some_starts(items, how, k) == some_fragment(before, how, before.len()));
            if some_fragment(own, how, own.len()) {
                let i = choose|i: int| 0 <= i < own.len() && (#[trigger] own[i]).combine == how;
                if i < before.len() {
                    assert(before[i].combine == how);
                    assert(some_starts(items, how, k));
                    let j = choose|j: int|
                        0 <= j < k && j < items.len() && (
                        #[trigger] items[j] matches ItemModel::Start { combine, body }
                            && combine == how);
                    assert(items[j] is Start);
                } else {
                    assert(items[k as int] is Start);
                }
            }
            if some_starts(items, how, n) {
                let j = choose|j: int|
                    0 <= j < n && j < items.len() && (
                    #[trigger] items[j] matches ItemModel::Start { combine, body } && combine
                        == how);
                if j < k {
                    assert(some_starts(items, how, k));
                    let i = choose|i: int|
                        0 <= i < before.len() && (#[trigger] before[i]).combine == how;
                    assert(own[i].combine == how);
                } else {
                    assert(own[before.len() as int].combine == how);
                }
            }
        }
    }
}

/// What the starts of a grammar come to: as with the definitions of a name.
pub proof fn law_starts_combine(
    items: Seq<ItemModel>,
    no_start: Text,
    m: Given,
    e: Setting,
    depth: nat,
)
    requires
        merged_items(items, no_start) is Ok,
    ensures
        ({
            let p = merged_items(items, no_start)->Ok_0.0;
            let bodies = starts_of(items, items.len());
            &&& bodies.len() > 0
            &&& bodies.len() == 1 ==> p == bodies[0]
            &&& bodies.len() > 1 ==> some_starts(items, Some(Combine::Interleave), items.len())
                != some_starts(items, Some(Combine::Choice), items.len())
            &&& bodies.len() > 1 && some_starts(items, Some(Combine::Interleave), items.len())
                ==> (meets(p, m, e, depth) <==> exists|shares: Seq<Given>| #[trigger]
                apportioned(false, bodies, shares, m, e, depth))
            &&& bodies.len() > 1 && some_starts(items, Some(Combine::Choice), items.len()) ==> (
            meets(p, m, e, depth) <==> exists|i: int|
                0 <= i < bodies.len() && meets(#[trigger] bodies[i], m, e, depth))
        }),
{
    reveal(merged_items);
    let n = items.len();
    let own = start_fragments(items, n);
    let bodies = starts_of(items, n);
    lemma_starts_gathered(items, n);
    lemma_agreed(own, own.len());
    assert(some_fragment(own, Some(Combine::Interleave), own.len()) == some_starts(
        items,
        Some(Combine::Interleave),
        n,
    ));
    assert(some_fragment(own, Some(Combine::Choice), own.len()) == some_starts(
        items,
        Some(Combine::Choice),
        n,
    ));
    lemma_apportioned(false, bodies, m, e, depth);
    if bodies.len() > 1 {
        assert(meets(PatternModel::Choice(bodies), m, e, depth) == some_meet(
            bodies,
            m,
            e,
            depth,
        ));
    }
}

// ---------------------------------------------------------------------
// Forms that stand for others
// ---------------------------------------------------------------------

/// Whether what is given is made of shares that patterns in a row describe, in their order.
pub open spec fn in_a_row(s: Seq<PatternModel>, m: Given, e: Setting, depth: nat) -> bool {
    exists|shares: Seq<Given>| #[trigger] apportioned(true, s, shares, m, e, depth)
}

/// Whether what is given is made, in order, of so many times what patterns in a row describe.
pub open spec fn rows(s: Seq<PatternModel>, k: nat, m: Given, e: Setting, depth: nat) -> bool
    decreases k,
{
    if k == 0 {
        m == nothing()
    } else {
        exists|a: Given, b: Given|
            #[trigger] makes(true, a, b, m) && rows(s, (k - 1) as nat, a, e, depth) && in_a_row(
                s,
                b,
                e,
                depth,
            )
    }
}

/// Whether what is given is so for some number, one at least.
pub open spec fn some_rows(s: Seq<PatternModel>, m: Given, e: Setting, depth: nat) -> bool {
    exists|k: nat| #[trigger] positive(k) && rows(s, k, m, e, depth)
}

/// Whether there is nothing but text.
pub open spec fn only_text(m: Given) -> bool {
    m.attributes == Multiset::<Attribute>::empty() && all_text(m.children)
}

/// What a repetition describes is so many rows.
proof fn lemma_rows(s: Seq<PatternModel>, k: nat, m: Given, e: Setting, depth: nat)
    ensures
        repeated(group_of(s), k, m, e, depth) <==> rows(s, k, m, e, depth),
    decreases k,
{
    if k > 0 {
        let j = (k - 1) as nat;
        let q = group_of(s);
        if repeated(q, k, m, e, depth) {
            let (a, b) = crate::matching::lemma_last_repeated(q, k, m, e, depth);
            lemma_rows(s, j, a, e, depth);
            lemma_containers(true, s, b, e, depth);
            lemma_apportioned(true, s, b, e, depth);
            assert(makes(true, a, b, m));
        }
        if rows(s, k, m, e, depth) {
            let (a, b) = choose|a: Given, b: Given|
                #[trigger] makes(true, a, b, m) && rows(s, j, a, e, depth) && in_a_row(
                    s,
                    b,
                    e,
                    depth,
                );
            lemma_rows(s, j, a, e, depth);
            lemma_containers(true, s, b, e, depth);
            lemma_apportioned(true, s, b, e, depth);
            crate::matching::lemma_repeated_more(q, k, a, b, m, e, depth);
        }
    }
}

/// A repetition of patterns in a row.
proof fn lemma_some_rows(s: Seq<PatternModel>, m: Given, e: Setting, depth: nat)
    ensures
        meets(one_or_more_of(group_of(s)), m, e, depth) <==> some_rows(s, m, e, depth),
{
    let q = group_of(s);
    if q is NotAllowed {
        if some_rows(s, m, e, depth) {
            let k = choose|k: nat| #[trigger] positive(k) && rows(s, k, m, e, depth);
            let (a, b) = choose|a: Given, b: Given|
                #[trigger] makes(true, a, b, m) && rows(s, (k - 1) as nat, a, e, depth)
                    && in_a_row(s, b, e, depth);
            lemma_containers(true, s, b, e, depth);
            lemma_apportioned(true, s, b, e, depth);
        }
    } else {
        assert(seq![q][0] == q);
        if some_repeated(q, m, e, depth) {
            let k = choose|k: nat| #[trigger] positive(k) && repeated(q, k, m, e, depth);
            lemma_rows(s, k, m, e, depth);
            assert(positive(k));
        }
        if some_rows(s, m, e, depth) {
            let k = choose|k: nat| #[trigger] positive(k) && rows(s, k, m, e, depth);
            lemma_rows(s, k, m, e, depth);
            assert(positive(k));
            assert(some_repeated(q, m, e, depth));
        }
    }
}

/// What a pattern comes to, once its operands have come to `s`: an `optional` describes nothing
/// at all or what `s` describe in a row, a `zeroOrMore` any number of such rows, a `oneOrMore`
/// one at least, a `mixed` such a row merged with text, a `group` such a row, an `interleave`
/// shares of all of `s` merged, and a `choice` what one of them describes.
pub proof fn law_composed_forms_keep_meaning(
    p: PatternModel,
    place: PlaceModel,
    state: StateModel,
    m: Given,
    e: Setting,
    depth: nat,
    d: nat,
)
    requires
        operands(p) is Some,
        all_simple(operands(p)->0, place, state, depth, operands(p)->0.len()) is Ok,
    ensures
        ({
            let s = all_simple(operands(p)->0, place, state, depth, operands(p)->0.len())->Ok_0.0;
            let q = simple(p, place, state, depth)->Ok_0.0;
            &&& !(p is Element || p is Attribute || p is Data) ==> simple(
                p,
                place,
                state,
                depth,
            ) is Ok
            &&& p is Optional ==> (meets(q, m, e, d) <==> m == nothing() || in_a_row(s, m, e, d))
            &&& p is ZeroOrMore ==> (meets(q, m, e, d) <==> m == nothing() || some_rows(
                s,
                m,
                e,
                d,
            ))
            &&& p is OneOrMore ==> (meets(q, m, e, d) <==> some_rows(s, m, e, d))
            &&& p is Mixed ==> (meets(q, m, e, d) <==> exists|a: Given, b: Given| #[trigger]
                makes(false, a, b, m) && in_a_row(s, a, e, d) && only_text(b))
            &&& p is Group ==> (meets(q, m, e, d) <==> in_a_row(s, m, e, d))
            &&& p is Interleave ==> (meets(q, m, e, d) <==> exists|shares: Seq<Given>| #[trigger]
                apportioned(false, s, shares, m, e, d))
            &&& p is Choice ==> (meets(q, m, e, d) <==> exists|i: int|
                0 <= i < s.len() && meets(#[trigger] s[i], m, e, d))
        }),
{
    reveal(rebuilt);
    reveal(own_problem);
    let values = operands(p)->0;
    let s = all_simple(values, place, state, depth, values.len())->Ok_0.0;
    let row = group_of(s);
    let empty = PatternModel::Empty;
    lemma_containers(true, s, m, e, d);
    lemma_containers(false, s, m, e, d);
    lemma_apportioned(true, s, m, e, d);
    lemma_apportioned(false, s, m, e, d);
    lemma_choice(s, m, e, d);
    lemma_empty(m, e, d);
    match p {
        PatternModel::Optional(_) => {
            let both = seq![row, empty];
            lemma_two_choices(row, empty, m, e, d);
        },
        PatternModel::ZeroOrMore(_) => {
            lemma_some_rows(s, m, e, d);
            lemma_two_choices(one_or_more_of(row), empty, m, e, d);
        },
        PatternModel::OneOrMore(_) => {
            lemma_some_rows(s, m, e, d);
        },
        PatternModel::Mixed(_) => {
            let both = seq![row, PatternModel::Text];
            lemma_containers(false, both, m, e, d);
            if shared(false, both, 2, m, e, d) {
                let (a, b) = lemma_shares(false, both, 2, m, e, d);
                lemma_one_share(false, both, a, e, d);
                lemma_containers(true, s, a, e, d);
                lemma_apportioned(true, s, a, e, d);
                lemma_text_means(b, e, d);
                assert(makes(false, a, b, m));
            }
            if exists|a: Given, b: Given| #[trigger]
                makes(false, a, b, m) && in_a_row(s, a, e, d) && only_text(b) {
                let (a, b) = choose|a: Given, b: Given| #[trigger]
                    makes(false, a, b, m) && in_a_row(s, a, e, d) && only_text(b);
                lemma_containers(true, s, a, e, d);
                lemma_apportioned(true, s, a, e, d);
                lemma_text_means(b, e, d);
                lemma_one_share(false, both, a, e, d);
                lemma_sharing(false, both, 2, a, b, m, e, d);
            }
        },
        PatternModel::Choice(_) => {
            assert(some_meet(s, m, e, d) <==> exists|i: int|
                0 <= i < s.len() && meets(#[trigger] s[i], m, e, d));
        },
        _ => {},
    }
}

/// What `text` describes.
proof fn lemma_text_means(m: Given, e: Setting, depth: nat)
    ensures
        meets(PatternModel::Text, m, e, depth) <==> only_text(m),
{
}

/// What two alternatives describe.
proof fn lemma_two_choices(p: PatternModel, q: PatternModel, m: Given, e: Setting, depth: nat)
    ensures
        meets(choice_of(seq![p, q]), m, e, depth) <==> meets(p, m, e, depth) || meets(
            q,
            m,
            e,
            depth,
        ),
{
    let both = seq![p, q];
    lemma_choice(both, m, e, depth);
    assert(both[0] == p && both[1] == q);
    if meets(p, m, e, depth) {
        assert(meets(both[0], m, e, depth));
    }
    if meets(q, m, e, depth) {
        assert(meets(both[1], m, e, depth));
    }
}

} // verus!
