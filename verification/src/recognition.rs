//! In a schema without illegal recursion the depth to which references are followed does
//! not matter: children are recognized just where the content model accepts them.
use vstd::prelude::*;

use crate::acyclic::{
    edge, falls, law_accepted_references_fall, law_reached_names_are_closed, mentions,
    some_mentions,
};
use crate::compose::compiled;
use crate::derivative::{
    all_structurally_empty, some_structurally_empty, structurally_empty, Defs, MAX_DEPTH,
};
use crate::grammar::{PatternModel, RootModel};
use crate::language::{
    accepts, law_child_sequences_are_recognized, lemma_deeper, lemma_empty_deeper,
    lemma_last_time, lemma_one_more_time, lemma_parts, lemma_whole, positive, remaining, some_times,
    some_within, times, together, within, Word,
};
use crate::recursion::{all_ref_edges, reached, recursion_problem, ref_edges, Names};
use crate::simplify::Feed;
use crate::string_map::{has_key, lemma_lookup_index, lookup};
use crate::text::Text;

verus! {

// ---------------------------------------------------------------------
// What no event satisfies
// ---------------------------------------------------------------------

/// Whether a depth is great enough for the named patterns: one more makes no other of them
/// satisfied by no event.
spec fn settled(defs: Defs, depth: nat) -> bool {
    forall|i: int|
        0 <= i < defs.len() && structurally_empty((#[trigger] defs[i]).1, defs, depth + 1)
            ==> structurally_empty(defs[i].1, defs, depth)
}

/// The number of named patterns, of the first `n`, that are satisfied by no event.
spec fn empty_count(defs: Defs, depth: nat, n: nat) -> nat
    decreases n,
{
    if n == 0 || n > defs.len() {
        0
    } else {
        empty_count(defs, depth, (n - 1) as nat) + (if structurally_empty(
            defs[n - 1].1,
            defs,
            depth,
        ) {
            1nat
        } else {
            0nat
        })
    }
}

/// Until the named patterns are settled, each depth makes one more of them satisfied by no
/// event.
proof fn lemma_empty_count(defs: Defs, depth: nat, n: nat, k: int)
    requires
        n <= defs.len(),
        0 <= k < defs.len(),
        structurally_empty(defs[k].1, defs, depth + 1),
        !structurally_empty(defs[k].1, defs, depth),
    ensures
        empty_count(defs, depth, n) <= empty_count(defs, depth + 1, n) <= n,
        k < n ==> empty_count(defs, depth, n) < empty_count(defs, depth + 1, n),
    decreases n,
{
    if n > 0 {
        lemma_empty_count(defs, depth, (n - 1) as nat, k);
        if structurally_empty(defs[n - 1].1, defs, depth) {
            lemma_empty_deeper(defs[n - 1].1, defs, depth, depth + 1);
        }
    }
}

/// The named patterns are settled at a depth of no more than their number.
proof fn lemma_some_settled(defs: Defs, k: nat) -> (depth: nat)
    requires
        k <= defs.len() + 1,
    ensures
        settled(defs, depth) && depth < k || k <= empty_count(defs, k, defs.len()),
    decreases k,
{
    if k == 0 {
        0
    } else {
        let before = (k - 1) as nat;
        let depth = lemma_some_settled(defs, before);
        if settled(defs, depth) && depth < before {
            depth
        } else if settled(defs, before) {
            before
        } else {
            let i = choose|i: int|
                0 <= i < defs.len() && structurally_empty(
                    (#[trigger] defs[i]).1,
                    defs,
                    before + 1,
                ) && !structurally_empty(defs[i].1, defs, before);
            lemma_empty_count(defs, before, defs.len(), i);
            depth
        }
    }
}

/// No more patterns are satisfied by no event than there are.
proof fn lemma_empty_count_bound(defs: Defs, depth: nat, n: nat)
    requires
        n <= defs.len(),
    ensures
        empty_count(defs, depth, n) <= n,
    decreases n,
{
    if n > 0 {
        lemma_empty_count_bound(defs, depth, (n - 1) as nat);
    }
}

/// Where the named patterns are settled, one more depth makes no difference to a pattern
/// that refers to them.
proof fn lemma_settled_step(p: PatternModel, defs: Defs, depth: nat)
    requires
        settled(defs, depth),
        structurally_empty(p, defs, depth + 2),
    ensures
        structurally_empty(p, defs, depth + 1),
    decreases p,
{
    match p {
        PatternModel::List(values) => {
            lemma_settled_step(values[0], defs, depth);
        },
        PatternModel::OneOrMore(values) => {
            lemma_settled_step(values[0], defs, depth);
        },
        PatternModel::Choice(values) => {
            assert(some_structurally_empty(values, defs, depth + 2));
            let i = choose|i: int|
                0 <= i < values.len() && structurally_empty(#[trigger] values[i], defs, depth + 2);
            lemma_settled_step(values[i], defs, depth);
            assert(some_structurally_empty(values, defs, depth + 1));
        },
        PatternModel::Group(values) => {
            lemma_all_settled_step(values, defs, depth);
        },
        PatternModel::Interleave(values) => {
            lemma_all_settled_step(values, defs, depth);
        },
        PatternModel::Ref(name) => {
            let i = lemma_lookup_index(defs, name);
            assert(structurally_empty(defs[i].1, defs, depth + 1));
        },
        _ => {},
    }
}

/// Where the named patterns are settled, one more depth makes no difference to patterns
/// that refer to them.
proof fn lemma_all_settled_step(s: Seq<PatternModel>, defs: Defs, depth: nat)
    requires
        settled(defs, depth),
        all_structurally_empty(s, defs, depth + 2),
    ensures
        all_structurally_empty(s, defs, depth + 1),
    decreases s,
{
    assert forall|i: int| 0 <= i < s.len() implies structurally_empty(
        #[trigger] s[i],
        defs,
        depth + 1,
    ) by {
        assert(structurally_empty(s[i], defs, depth + 2));
        lemma_settled_step(s[i], defs, depth);
    }
}

/// Where the named patterns are settled, no greater depth makes a difference.
proof fn lemma_settled_for_good(p: PatternModel, defs: Defs, depth: nat, more: nat)
    requires
        settled(defs, depth),
        structurally_empty(p, defs, more),
    ensures
        structurally_empty(p, defs, depth + 1),
    decreases more,
{
    if more <= depth + 1 {
        lemma_empty_deeper(p, defs, more, depth + 1);
    } else {
        let last = (more - 2) as nat;
        lemma_stays_settled(defs, depth, last);
        lemma_settled_step(p, defs, last);
        lemma_settled_for_good(p, defs, depth, (more - 1) as nat);
    }
}

/// Named patterns that are settled stay so.
proof fn lemma_stays_settled(defs: Defs, depth: nat, more: nat)
    requires
        settled(defs, depth),
        depth <= more,
    ensures
        settled(defs, more),
    decreases more,
{
    if depth < more {
        let last = (more - 1) as nat;
        lemma_stays_settled(defs, depth, last);
        assert forall|i: int|
            0 <= i < defs.len() && structurally_empty(
                (#[trigger] defs[i]).1,
                defs,
                more + 1,
            ) implies structurally_empty(defs[i].1, defs, more) by {
            lemma_settled_step(defs[i].1, defs, last);
        }
    }
}

/// What is satisfied by no event at all is so within a depth of one more than there are
/// named patterns.
proof fn lemma_empty_bounded(p: PatternModel, defs: Defs, depth: nat)
    requires
        structurally_empty(p, defs, depth),
    ensures
        structurally_empty(p, defs, defs.len() + 1),
{
    let k = defs.len() + 1;
    let enough = lemma_some_settled(defs, k);
    lemma_empty_count_bound(defs, k, defs.len());
    lemma_settled_for_good(p, defs, enough, depth);
    lemma_empty_deeper(p, defs, enough + 1, k);
}

// ---------------------------------------------------------------------
// Ranks
// ---------------------------------------------------------------------

/// The number of names, of the first `n`, of a rank below the given one.
spec fn below(names: Names, rank: spec_fn(Text) -> nat, r: nat, n: nat) -> nat
    decreases n,
{
    if n == 0 || n > names.len() {
        0
    } else {
        below(names, rank, r, (n - 1) as nat) + (if rank(names[n - 1].0) < r {
            1nat
        } else {
            0nat
        })
    }
}

/// More names are below a higher rank, where some name is between.
proof fn lemma_below(names: Names, rank: spec_fn(Text) -> nat, r: nat, s: nat, n: nat, k: int)
    requires
        r <= s,
        n <= names.len(),
        0 <= k < names.len(),
        r <= rank(names[k].0) < s,
    ensures
        below(names, rank, r, n) <= below(names, rank, s, n) <= n,
        k < n ==> below(names, rank, r, n) < below(names, rank, s, n),
        k < n ==> below(names, rank, r, n) < n,
    decreases n,
{
    if n > 0 {
        lemma_below(names, rank, r, s, (n - 1) as nat, k);
    }
}

/// Ranks need be no higher than there are names.
proof fn lemma_low_rank(defs: Defs, names: Names, rank: spec_fn(Text) -> nat) -> (low: spec_fn(
    Text,
) -> nat)
    requires
        falls(defs, names, rank),
    ensures
        falls(defs, names, low),
        forall|x: Text| has_key(names, x) ==> #[trigger] low(x) < names.len(),
{
    let low = |x: Text| below(names, rank, rank(x), names.len());
    assert forall|a: Text, b: Text|
        has_key(names, a) && has_key(names, b) && #[trigger] edge(defs, a, b) implies low(b)
        < low(a) by {
        let k = lemma_lookup_index(names, b);
        lemma_below(names, rank, rank(b), rank(a), names.len(), k);
    }
    assert forall|x: Text| has_key(names, x) implies #[trigger] low(x) < names.len() by {
        let k = lemma_lookup_index(names, x);
        lemma_below(names, rank, rank(x), rank(x) + 1, names.len(), k);
    }
    low
}

/// What the operands refer to, the pattern refers to.
proof fn lemma_all_edges(s: Seq<PatternModel>, n: nat, i: int, b: Text)
    requires
        n <= s.len(),
        0 <= i < n,
        ref_edges(s[i]).contains(b),
    ensures
        all_ref_edges(s, n).contains(b),
    decreases n,
{
    let before = all_ref_edges(s, (n - 1) as nat);
    let last = ref_edges(s[n - 1]);
    let all = before + last;
    if i < n - 1 {
        lemma_all_edges(s, (n - 1) as nat, i, b);
        let j = choose|j: int| 0 <= j < before.len() && before[j] == b;
        assert(all[j] == b);
    } else {
        let j = choose|j: int| 0 <= j < last.len() && last[j] == b;
        assert(all[before.len() + j] == b);
    }
}

/// What a pattern refers to without an element in between, it refers to.
proof fn lemma_edges_are_mentions(p: PatternModel, b: Text)
    requires
        ref_edges(p).contains(b),
    ensures
        mentions(p, b),
    decreases p, 0nat,
{
    match p {
        PatternModel::Ref(_) => {},
        PatternModel::Attribute { name, body, context } => {
            lemma_all_edges_are_mentions(body, body.len(), b);
        },
        PatternModel::List(values) => {
            lemma_all_edges_are_mentions(values, values.len(), b);
        },
        PatternModel::Group(values) => {
            lemma_all_edges_are_mentions(values, values.len(), b);
        },
        PatternModel::Interleave(values) => {
            lemma_all_edges_are_mentions(values, values.len(), b);
        },
        PatternModel::Choice(values) => {
            lemma_all_edges_are_mentions(values, values.len(), b);
        },
        PatternModel::OneOrMore(values) => {
            lemma_all_edges_are_mentions(values, values.len(), b);
        },
        PatternModel::Optional(values) => {
            lemma_all_edges_are_mentions(values, values.len(), b);
        },
        PatternModel::ZeroOrMore(values) => {
            lemma_all_edges_are_mentions(values, values.len(), b);
        },
        PatternModel::Mixed(values) => {
            lemma_all_edges_are_mentions(values, values.len(), b);
        },
        _ => {},
    }
}

/// What patterns refer to without an element in between, they refer to.
proof fn lemma_all_edges_are_mentions(s: Seq<PatternModel>, n: nat, b: Text)
    requires
        n <= s.len(),
        all_ref_edges(s, n).contains(b),
    ensures
        some_mentions(s, b),
    decreases s, n,
{
    assert(n > 0);
    let before = all_ref_edges(s, (n - 1) as nat);
    let last = ref_edges(s[n - 1]);
    let j = choose|j: int| 0 <= j < (before + last).len() && (before + last)[j] == b;
    if j < before.len() {
        assert(before[j] == b);
        lemma_all_edges_are_mentions(s, (n - 1) as nat, b);
    } else {
        assert(last[j - before.len()] == b);
        lemma_edges_are_mentions(s[n - 1], b);
        assert(mentions(s[n - 1], b));
    }
}

/// Whether a pattern refers, without an element in between, only to names of a rank below
/// the given one.
pub open spec fn refers_below(
    p: PatternModel,
    defs: Defs,
    names: Names,
    rank: spec_fn(Text) -> nat,
    r: nat,
) -> bool {
    forall|b: Text| #[trigger]
        ref_edges(p).contains(b) && has_key(defs, b) ==> has_key(names, b) && rank(b) < r
}

/// Whether the names can be ranked, and hold what they refer to.
pub open spec fn well_ranked(defs: Defs, names: Names, rank: spec_fn(Text) -> nat) -> bool {
    &&& falls(defs, names, rank)
    &&& forall|a: Text, b: Text|
        has_key(names, a) && has_key(defs, b) && #[trigger] edge(defs, a, b) ==> has_key(names, b)
}

/// Operands refer to what the pattern refers to.
pub proof fn lemma_operand_below(
    p: PatternModel,
    s: Seq<PatternModel>,
    i: int,
    defs: Defs,
    names: Names,
    rank: spec_fn(Text) -> nat,
    r: nat,
)
    requires
        refers_below(p, defs, names, rank, r),
        ref_edges(p) == all_ref_edges(s, s.len()),
        0 <= i < s.len(),
    ensures
        refers_below(s[i], defs, names, rank, r),
{
    assert forall|b: Text| #[trigger]
        ref_edges(s[i]).contains(b) && has_key(defs, b) implies has_key(names, b) && rank(b)
        < r by {
        lemma_all_edges(s, s.len(), i, b);
        assert(ref_edges(p).contains(b));
    }
}

/// What is accepted at all is accepted within the depth of the rank, and what no
/// event satisfies needs besides.
proof fn lemma_bounded(
    p: PatternModel,
    w: Word,
    defs: Defs,
    names: Names,
    rank: spec_fn(Text) -> nat,
    d: nat,
    r: nat,
)
    requires
        well_ranked(defs, names, rank),
        refers_below(p, defs, names, rank, r),
        within(p, w, defs, d),
    ensures
        within(p, w, defs, r + defs.len() + 1),
    decreases d, p, 0nat, 0nat,
{
    let enough = r + defs.len() + 1;
    match p {
        PatternModel::List(values) => {
            if w.len() == 0 {
                lemma_empty_bounded(values[0], defs, d);
                lemma_empty_deeper(values[0], defs, defs.len() + 1, enough);
            }
        },
        PatternModel::Choice(values) => {
            assert(some_within(values, w, defs, d));
            let i = choose|i: int|
                0 <= i < values.len() && within(#[trigger] values[i], w, defs, d);
            lemma_operand_below(p, values, i, defs, names, rank, r);
            lemma_bounded(values[i], w, defs, names, rank, d, r);
            assert(some_within(values, w, defs, enough));
        },
        PatternModel::Group(values) => {
            lemma_bounded_together(p, true, values, values.len(), w, defs, names, rank, d, r);
        },
        PatternModel::Interleave(values) => {
            lemma_bounded_together(p, false, values, values.len(), w, defs, names, rank, d, r);
        },
        PatternModel::OneOrMore(values) => {
            let b = values[0];
            assert(some_times(b, w, defs, d));
            let m = choose|m: nat| #[trigger] positive(m) && times(b, m, w, defs, d);
            lemma_operand_below(p, values, 0, defs, names, rank, r);
            lemma_bounded_times(b, m, w, defs, names, rank, d, r);
            assert(positive(m));
            assert(some_times(b, w, defs, enough));
        },
        PatternModel::Ref(name) => {
            let target = lookup(defs, name)->0;
            assert(ref_edges(p)[0] == name);
            assert(ref_edges(p).contains(name));
            assert forall|b: Text| #[trigger]
                ref_edges(target).contains(b) && has_key(defs, b) implies has_key(names, b)
                && rank(b) < rank(name) by {
                assert(edge(defs, name, b));
            }
            lemma_bounded(target, w, defs, names, rank, (d - 1) as nat, rank(name));
            lemma_deeper(target, w, defs, rank(name) + defs.len() + 1, (enough - 1) as nat);
        },
        _ => {},
    }
}

/// What is accepted together at all is accepted within the depth of the rank, and what no
/// event satisfies needs besides.
proof fn lemma_bounded_together(
    p: PatternModel,
    ordered: bool,
    s: Seq<PatternModel>,
    n: nat,
    w: Word,
    defs: Defs,
    names: Names,
    rank: spec_fn(Text) -> nat,
    d: nat,
    r: nat,
)
    requires
        well_ranked(defs, names, rank),
        refers_below(p, defs, names, rank, r),
        ref_edges(p) == all_ref_edges(s, s.len()),
        n <= s.len(),
        together(ordered, s, n, w, defs, d),
    ensures
        together(ordered, s, n, w, defs, r + defs.len() + 1),
    decreases d, s, n, 1nat,
{
    if n > 0 {
        let (u, v) = lemma_parts(ordered, s, n, w, defs, d);
        lemma_bounded_together(p, ordered, s, (n - 1) as nat, u, defs, names, rank, d, r);
        lemma_operand_below(p, s, n - 1, defs, names, rank, r);
        lemma_bounded(s[n - 1], v, defs, names, rank, d, r);
        lemma_whole(ordered, s, n, u, v, w, defs, r + defs.len() + 1);
    }
}

/// What is accepted some times at all is accepted within the depth of the rank, and what no
/// event satisfies needs besides.
proof fn lemma_bounded_times(
    p: PatternModel,
    m: nat,
    w: Word,
    defs: Defs,
    names: Names,
    rank: spec_fn(Text) -> nat,
    d: nat,
    r: nat,
)
    requires
        well_ranked(defs, names, rank),
        refers_below(p, defs, names, rank, r),
        times(p, m, w, defs, d),
    ensures
        times(p, m, w, defs, r + defs.len() + 1),
    decreases d, p, 1nat, 2 * m + 1,
{
    if m > 0 {
        let (u, v) = lemma_last_time(p, m, w, defs, d);
        lemma_bounded_times(p, (m - 1) as nat, u, defs, names, rank, d, r);
        lemma_bounded(p, v, defs, names, rank, d, r);
        lemma_one_more_time(p, m, u, v, w, defs, r + defs.len() + 1);
    }
}

/// Where no reference goes round, the names that the start reaches can be ranked, below
/// their number, and a pattern that refers only to such names refers to ranked ones.
pub proof fn lemma_well_ranked(start: PatternModel, p: PatternModel, defs: Defs, depth: nat) -> (rank:
    spec_fn(Text) -> nat)
    requires
        defs.len() <= depth,
        recursion_problem(start, defs, depth) is None,
        forall|b: Text|
            has_key(defs, b) && #[trigger] mentions(p, b) ==> has_key(
                reached(start, defs, Seq::empty(), depth),
                b,
            ),
    ensures
        well_ranked(defs, reached(start, defs, Seq::empty(), depth), rank),
        refers_below(p, defs, reached(start, defs, Seq::empty(), depth), rank, defs.len()),
{
    let names = reached(start, defs, Seq::empty(), depth);
    law_reached_names_are_closed(start, defs, depth);
    law_accepted_references_fall(start, defs, depth);
    let high = choose|rank: spec_fn(Text) -> nat| #[trigger] falls(defs, names, rank);
    let rank = lemma_low_rank(defs, names, high);
    assert forall|a: Text, b: Text|
        has_key(names, a) && has_key(defs, b) && #[trigger] edge(defs, a, b) implies has_key(
        names,
        b,
    ) by {
        lemma_edges_are_mentions(lookup(defs, a)->0, b);
    }
    assert forall|b: Text| #[trigger]
        ref_edges(p).contains(b) && has_key(defs, b) implies has_key(names, b) && rank(b)
        < defs.len() by {
        lemma_edges_are_mentions(p, b);
        assert(rank(b) < names.len());
    }
    rank
}

/// In an accepted schema children are recognized exactly where the content model accepts
/// them: nothing more is needed after them just in case the model, which refers to what the
/// start reaches, accepts their sequence.
pub proof fn law_accepted_schemas_recognize_exactly(
    root: RootModel,
    log: Feed,
    p: PatternModel,
    w: Word,
)
    requires
        compiled(root, log) is Ok,
        2 * compiled(root, log)->Ok_0.definitions.len() < MAX_DEPTH,
        forall|b: Text|
            has_key(compiled(root, log)->Ok_0.definitions, b) && #[trigger] mentions(p, b)
                ==> has_key(
                reached(
                    compiled(root, log)->Ok_0.start,
                    compiled(root, log)->Ok_0.definitions,
                    Seq::empty(),
                    MAX_DEPTH as nat,
                ),
                b,
            ),
    ensures
        ({
            let defs = compiled(root, log)->Ok_0.definitions;
            let depth = MAX_DEPTH as nat;
            within(remaining(p, w, defs, depth), Seq::empty(), defs, depth) <==> accepts(p, w, defs)
        }),
{
    let start = compiled(root, log)->Ok_0.start;
    let defs = compiled(root, log)->Ok_0.definitions;
    let depth = MAX_DEPTH as nat;
    let names = reached(start, defs, Seq::empty(), depth);
    law_child_sequences_are_recognized(p, w, defs, depth);
    let rank = lemma_well_ranked(start, p, defs, depth);
    if accepts(p, w, defs) {
        let d = choose|d: nat| #[trigger] within(p, w, defs, d);
        lemma_bounded(p, w, defs, names, rank, d, defs.len());
        lemma_deeper(p, w, defs, 2 * defs.len() + 1, depth);
    }
}

} // verus!
