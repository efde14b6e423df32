//! What an accepted schema keeps to: where its patterns stand, and what stands beside them.
use vstd::prelude::*;

use crate::acyclic::{edge, law_reached_names_are_closed, mentions, some_mentions};
use crate::compose::{
    compiled, defs_groups_problem, lemma_operands, operands, restrict_unreached, schema_problem,
};
use crate::derivative::{Defs, MAX_DEPTH};
use crate::forms::{defs_in_form, in_form, law_composed_schema_is_in_form};
use crate::grammar::{PatternModel, RootModel};
use crate::recognition::{lemma_operand_below, lemma_well_ranked, refers_below, well_ranked};
use crate::recursion::{reached, reached_all, ref_edges, Names};
use crate::restrictions::{
    all_groups_problem, except_problem, except_problems, groups_problem, held, holdings_of,
    inside_nothing, nothing_held, pair_problem, restrict, restrict_all, row_problem,
    rows_problem, some_overlap, start_problem, start_problems, Holdings, Inside, Passed,
};
use crate::simplify::{Feed, SchemaModel};
use crate::string_map::{
    has_key, inserted, lemma_has_key_at, lemma_inserted_entries, lemma_lookup_index, lookup,
};
use crate::text::Text;

verus! {

// ---------------------------------------------------------------------
// Occurrences
// ---------------------------------------------------------------------

/// Whether a pattern occurs anywhere in another, or is that one.
pub open spec fn occurs(p: PatternModel, q: PatternModel) -> bool
    decreases p,
{
    p == q || match operands(p) {
        Some(values) => {
            proof {
                lemma_operands(p);
            }
            some_occurs(values, q)
        },
        None => false,
    }
}

/// Whether a pattern occurs anywhere in some of others.
pub open spec fn some_occurs(s: Seq<PatternModel>, q: PatternModel) -> bool
    decreases s,
{
    exists|i: int| 0 <= i < s.len() && occurs(#[trigger] s[i], q)
}

/// Whether a pattern stands inside another, with no element between the two.
pub open spec fn part(p: PatternModel, q: PatternModel) -> bool
    decreases p,
{
    match operands(p) {
        Some(values) => {
            proof {
                lemma_operands(p);
            }
            some_part(values, q)
        },
        None => false,
    }
}

/// Whether a pattern is one of others, or stands inside one of them with no element between
/// the two.
pub open spec fn some_part(s: Seq<PatternModel>, q: PatternModel) -> bool
    decreases s,
{
    exists|i: int|
        0 <= i < s.len() && (#[trigger] s[i] == q || !(s[i] is Element) && part(s[i], q))
}

/// Whether a pattern occurs in a composed schema.
pub open spec fn occurs_in(schema: SchemaModel, q: PatternModel) -> bool {
    occurs(schema.start, q) || exists|name: Text|
        has_key(schema.definitions, name) && occurs(
            (#[trigger] lookup(schema.definitions, name))->0,
            q,
        )
}

/// Whether a pattern is of a kind that the exceptions of a datatype are made of.
pub open spec fn excepts(q: PatternModel) -> bool {
    q is Data || q is Value || q is Choice
}

// ---------------------------------------------------------------------
// What has passed the check
// ---------------------------------------------------------------------

/// Whether a pattern has passed the check of where its parts stand, inside of something.
spec fn fit(p: PatternModel, defs: Defs) -> bool {
    exists|inside: Inside, visiting: Passed, passed: Passed, depth: nat| #[trigger]
        restrict(p, inside, defs, visiting, passed, depth) is Ok
}

/// What the operands of a pattern stand inside of.
pub open spec fn own(p: PatternModel, inside: Inside) -> Inside {
    match p {
        PatternModel::Attribute { name, body, context } => Inside { attribute: true, ..inside },
        PatternModel::List(_) => Inside { list: true, ..inside },
        PatternModel::OneOrMore(_) => Inside { one_or_more: true, ..inside },
        PatternModel::ZeroOrMore(_) => Inside { one_or_more: true, ..inside },
        PatternModel::Group(_) => Inside {
            container: inside.container || inside.one_or_more,
            ..inside
        },
        PatternModel::Interleave(_) => Inside {
            container: inside.container || inside.one_or_more,
            ..inside
        },
        PatternModel::Element { name, body, context } => inside_nothing(),
        _ => inside,
    }
}

/// Whether the one holds all that the other does.
spec fn wider(a: Inside, b: Inside) -> bool {
    &&& b.attribute ==> a.attribute
    &&& b.list ==> a.list
    &&& b.one_or_more ==> a.one_or_more
    &&& b.container ==> a.container
}

/// Each of patterns that pass, passes.
proof fn lemma_each_passes(
    s: Seq<PatternModel>,
    inside: Inside,
    defs: Defs,
    visiting: Passed,
    passed: Passed,
    depth: nat,
    n: nat,
    i: int,
) -> (before: Passed)
    requires
        restrict_all(s, inside, defs, visiting, passed, depth, n) is Ok,
        0 <= i < n <= s.len(),
    ensures
        restrict(s[i], inside, defs, visiting, before, depth) is Ok,
    decreases n,
{
    let m = (n - 1) as nat;
    if i == m {
        restrict_all(s, inside, defs, visiting, passed, depth, m)->Ok_0
    } else {
        lemma_each_passes(s, inside, defs, visiting, passed, depth, m, i)
    }
}

/// Each exception of a datatype that passes, passes.
pub proof fn lemma_each_excepts(s: Seq<PatternModel>, n: nat, i: int)
    requires
        except_problems(s, n) is None,
        0 <= i < n <= s.len(),
    ensures
        except_problem(s[i]) is None,
    decreases n,
{
    if i < n - 1 {
        lemma_each_excepts(s, (n - 1) as nat, i);
    }
}

/// Exceptions of a datatype that pass are made of `data`, `value` and choices throughout.
pub proof fn lemma_excepts(p: PatternModel, q: PatternModel)
    requires
        except_problem(p) is None,
        occurs(p, q),
    ensures
        excepts(q),
    decreases p,
{
    if p != q {
        let values = operands(p)->0;
        lemma_operands(p);
        assert(some_occurs(values, q));
        let i = choose|i: int| 0 <= i < values.len() && occurs(#[trigger] values[i], q);
        lemma_each_excepts(values, values.len(), i);
        lemma_excepts(values[i], q);
    }
}

/// What stands inside a pattern occurs in it.
proof fn lemma_part_occurs(p: PatternModel, q: PatternModel)
    requires
        part(p, q),
    ensures
        occurs(p, q),
    decreases p,
{
    let values = operands(p)->0;
    lemma_operands(p);
    assert(some_part(values, q));
    let i = choose|i: int|
        0 <= i < values.len() && (#[trigger] values[i] == q || !(values[i] is Element) && part(
            values[i],
            q,
        ));
    if values[i] != q {
        lemma_part_occurs(values[i], q);
    }
    assert(occurs(values[i], q));
    assert(some_occurs(values, q));
}

/// The operand of a pattern that passes, passes inside of what it stands inside of.
proof fn lemma_operand_passes(
    p: PatternModel,
    inside: Inside,
    defs: Defs,
    visiting: Passed,
    passed: Passed,
    depth: nat,
    i: int,
) -> (before: Passed)
    requires
        restrict(p, inside, defs, visiting, passed, depth) is Ok,
        operands(p) is Some,
        0 <= i < operands(p)->0.len(),
    ensures
        p is Data ==> except_problem(operands(p)->0[i]) is None,
        !(p is Data) ==> restrict(
            operands(p)->0[i],
            own(p, inside),
            defs,
            visiting,
            before,
            depth,
        ) is Ok,
{
    let values = operands(p)->0;
    if p is Data {
        lemma_each_excepts(values, values.len(), i);
        passed
    } else {
        lemma_each_passes(
            values,
            own(p, inside),
            defs,
            visiting,
            passed,
            depth,
            values.len(),
            i,
        )
    }
}

/// What stands inside a pattern that passes, passes, inside of at least what the pattern
/// itself is and stands inside of.
proof fn lemma_part_passes(
    p: PatternModel,
    q: PatternModel,
    inside: Inside,
    defs: Defs,
    visiting: Passed,
    passed: Passed,
    depth: nat,
) -> (r: (Inside, Passed))
    requires
        restrict(p, inside, defs, visiting, passed, depth) is Ok,
        !(p is Element),
        part(p, q),
    ensures
        excepts(q) || restrict(q, r.0, defs, visiting, r.1, depth) is Ok && wider(
            r.0,
            own(p, inside),
        ),
    decreases p,
{
    let values = operands(p)->0;
    lemma_operands(p);
    assert(some_part(values, q));
    let i = choose|i: int|
        0 <= i < values.len() && (#[trigger] values[i] == q || !(values[i] is Element) && part(
            values[i],
            q,
        ));
    let before = lemma_operand_passes(p, inside, defs, visiting, passed, depth, i);
    if p is Data {
        if values[i] != q {
            lemma_part_occurs(values[i], q);
        }
        lemma_excepts(values[i], q);
        (inside, passed)
    } else if values[i] == q {
        (own(p, inside), before)
    } else {
        lemma_part_passes(values[i], q, own(p, inside), defs, visiting, before, depth)
    }
}

/// What occurs in a pattern that passes, passes.
proof fn lemma_occurrence_fits(
    p: PatternModel,
    q: PatternModel,
    inside: Inside,
    defs: Defs,
    visiting: Passed,
    passed: Passed,
    depth: nat,
)
    requires
        restrict(p, inside, defs, visiting, passed, depth) is Ok,
        occurs(p, q),
    ensures
        q is Value || q is Choice || fit(q, defs) || (q is Data && forall|i: int|
            0 <= i < operands(q)->0.len() ==> except_problem(#[trigger] operands(q)->0[i]) is None),
    decreases p,
{
    if p != q {
        let values = operands(p)->0;
        lemma_operands(p);
        assert(some_occurs(values, q));
        let i = choose|i: int| 0 <= i < values.len() && occurs(#[trigger] values[i], q);
        let before = lemma_operand_passes(p, inside, defs, visiting, passed, depth, i);
        if p is Data {
            lemma_excepts_data(values[i], q);
        } else {
            lemma_occurrence_fits(
                values[i],
                q,
                own(p, inside),
                defs,
                visiting,
                before,
                depth,
            );
        }
    }
}

/// The exceptions of a datatype among exceptions that pass, pass.
proof fn lemma_excepts_data(p: PatternModel, q: PatternModel)
    requires
        except_problem(p) is None,
        occurs(p, q),
    ensures
        excepts(q),
        q is Data ==> forall|i: int|
            0 <= i < operands(q)->0.len() ==> except_problem(#[trigger] operands(q)->0[i]) is None,
    decreases p,
{
    let values = operands(p)->0;
    if p == q {
        if q is Data {
            assert forall|i: int| 0 <= i < values.len() implies except_problem(
                #[trigger] values[i],
            ) is None by {
                lemma_each_excepts(values, values.len(), i);
            }
        }
    } else {
        lemma_operands(p);
        assert(some_occurs(values, q));
        let i = choose|i: int| 0 <= i < values.len() && occurs(#[trigger] values[i], q);
        lemma_each_excepts(values, values.len(), i);
        lemma_excepts_data(values[i], q);
    }
}

// ---------------------------------------------------------------------
// The check comes to every named pattern
// ---------------------------------------------------------------------

/// Whether a name has passed, inside of something.
pub open spec fn named(passed: Passed, name: Text) -> bool {
    exists|inside: Inside| #[trigger] passed.contains((name, inside))
}

/// Whether what a pattern refers to has passed or is being checked.
spec fn covered(p: PatternModel, defs: Defs, visiting: Passed, after: Passed) -> bool {
    forall|m: Text|
        has_key(defs, m) && #[trigger] mentions(p, m) ==> named(visiting, m) || named(after, m)
}

/// Whether the names that have passed since are in order, and what they refer to has passed
/// or is being checked.
spec fn advanced(defs: Defs, visiting: Passed, passed: Passed, after: Passed) -> bool {
    &&& forall|x: (Text, Inside)| #[trigger] passed.contains(x) ==> after.contains(x)
    &&& forall|a: Text| #[trigger]
        named(after, a) && !named(passed, a) ==> has_key(defs, a) && fit(
            lookup(defs, a)->0,
            defs,
        ) && covered(lookup(defs, a)->0, defs, visiting, after)
}

/// What has passed once has passed later.
proof fn lemma_named_later(passed: Passed, after: Passed, name: Text)
    requires
        forall|x: (Text, Inside)| #[trigger] passed.contains(x) ==> after.contains(x),
        named(passed, name),
    ensures
        named(after, name),
{
    let inside = choose|inside: Inside| #[trigger] passed.contains((name, inside));
    assert(after.contains((name, inside)));
}

/// One check after another.
proof fn lemma_advanced(
    defs: Defs,
    visiting: Passed,
    passed: Passed,
    middle: Passed,
    after: Passed,
)
    requires
        advanced(defs, visiting, passed, middle),
        advanced(defs, visiting, middle, after),
    ensures
        advanced(defs, visiting, passed, after),
{
    assert forall|a: Text| #[trigger] named(after, a) && !named(passed, a) implies has_key(defs, a)
        && fit(lookup(defs, a)->0, defs) && covered(
        lookup(defs, a)->0,
        defs,
        visiting,
        after,
    ) by {
        if named(middle, a) {
            lemma_covered_later(lookup(defs, a)->0, defs, visiting, middle, after);
        }
    }
}

/// What is covered once is covered later.
proof fn lemma_covered_later(
    p: PatternModel,
    defs: Defs,
    visiting: Passed,
    middle: Passed,
    after: Passed,
)
    requires
        covered(p, defs, visiting, middle),
        forall|x: (Text, Inside)| #[trigger] middle.contains(x) ==> after.contains(x),
    ensures
        covered(p, defs, visiting, after),
{
    assert forall|m: Text| has_key(defs, m) && #[trigger] mentions(p, m) implies named(
        visiting,
        m,
    ) || named(after, m) by {
        if !named(visiting, m) {
            lemma_named_later(middle, after, m);
        }
    }
}

/// Exceptions of a datatype refer to nothing.
pub proof fn lemma_excepts_mention_nothing(p: PatternModel, m: Text)
    requires
        except_problem(p) is None,
    ensures
        !mentions(p, m),
    decreases p,
{
    if mentions(p, m) {
        let values = operands(p)->0;
        lemma_operands(p);
        assert(some_mentions(values, m));
        let i = choose|i: int| 0 <= i < values.len() && mentions(#[trigger] values[i], m);
        lemma_each_excepts(values, values.len(), i);
        lemma_excepts_mention_nothing(values[i], m);
    }
}

/// Names that are being checked, all of them defined and no two alike, are no more than
/// there are.
pub proof fn lemma_visiting_count(visiting: Seq<Text>, defs: Defs)
    requires
        visiting.no_duplicates(),
        forall|x: Text| #[trigger] visiting.contains(x) ==> has_key(defs, x),
    ensures
        visiting.len() <= defs.len(),
{
    let keys = defs.map_values(|entry: (Text, PatternModel)| entry.0);
    visiting.unique_seq_to_set();
    keys.lemma_cardinality_of_set();
    assert forall|x: Text| #[trigger] visiting.to_set().contains(x) implies keys.to_set().contains(
        x,
    ) by {
        assert(visiting.contains(x));
        let i = lemma_lookup_index(defs, x);
        assert(keys[i] == x);
    }
    vstd::set_lib::lemma_len_subset(visiting.to_set(), keys.to_set());
}

/// Whether the depth is enough for the names that are not being checked yet.
pub open spec fn deep_enough(defs: Defs, visiting: Seq<Text>, depth: nat) -> bool {
    &&& visiting.no_duplicates()
    &&& forall|x: Text| #[trigger] visiting.contains(x) ==> has_key(defs, x)
    &&& defs.len() < visiting.len() + depth
}

/// What a pattern can stand inside of, by number.
spec fn inside_at(k: int) -> Inside {
    Inside {
        attribute: k % 2 == 1,
        list: (k / 2) % 2 == 1,
        one_or_more: (k / 4) % 2 == 1,
        container: k / 8 == 1,
    }
}

/// The number of what a pattern stands inside of.
spec fn number_of(inside: Inside) -> int {
    (if inside.attribute {
        1int
    } else {
        0
    }) + (if inside.list {
        2int
    } else {
        0
    }) + (if inside.one_or_more {
        4int
    } else {
        0
    }) + (if inside.container {
        8int
    } else {
        0
    })
}

/// Named patterns that are being checked, no two alike, are no more than there are ways for
/// them to stand inside of something.
pub proof fn lemma_checking_count(visiting: Passed, defs: Defs)
    requires
        visiting.no_duplicates(),
        forall|x: (Text, Inside)| #[trigger] visiting.contains(x) ==> has_key(defs, x.0),
    ensures
        visiting.len() <= 16 * defs.len(),
{
    let all = Seq::new(16 * defs.len(), |i: int| (defs[i / 16].0, inside_at(i % 16)));
    visiting.unique_seq_to_set();
    all.lemma_cardinality_of_set();
    assert forall|x: (Text, Inside)| #[trigger] visiting.to_set().contains(x) implies all.to_set()
        .contains(x) by {
        assert(visiting.contains(x));
        let i = lemma_lookup_index(defs, x.0);
        let k = number_of(x.1);
        assert(0 <= k < 16);
        assert(inside_at(k) == x.1);
        let at = 16 * i + k;
        assert(at / 16 == i && at % 16 == k);
        assert(all[at] == x);
    }
    vstd::set_lib::lemma_len_subset(visiting.to_set(), all.to_set());
}

/// Whether the depth is enough for what is not being checked yet.
pub open spec fn checking_enough(defs: Defs, visiting: Passed, depth: nat) -> bool {
    &&& visiting.no_duplicates()
    &&& forall|x: (Text, Inside)| #[trigger] visiting.contains(x) ==> has_key(defs, x.0)
    &&& 16 * defs.len() < visiting.len() + depth
}

/// The depth is enough for one reference more.
pub proof fn lemma_checking_more(
    defs: Defs,
    visiting: Passed,
    depth: nat,
    name: Text,
    inside: Inside,
)
    requires
        checking_enough(defs, visiting, depth),
        has_key(defs, name),
        !visiting.contains((name, inside)),
    ensures
        depth > 0,
        checking_enough(defs, visiting.push((name, inside)), (depth - 1) as nat),
{
    lemma_checking_count(visiting, defs);
    let inner = visiting.push((name, inside));
    assert forall|x: (Text, Inside)| #[trigger] inner.contains(x) implies has_key(defs, x.0) by {
        let k = choose|k: int| 0 <= k < inner.len() && inner[k] == x;
        if k < visiting.len() {
            assert(visiting[k] == x);
            assert(visiting.contains(x));
        }
    }
}

/// The check follows every reference that it comes to.
proof fn lemma_restrict_covers(
    p: PatternModel,
    inside: Inside,
    defs: Defs,
    visiting: Passed,
    passed: Passed,
    depth: nat,
)
    requires
        checking_enough(defs, visiting, depth),
        restrict(p, inside, defs, visiting, passed, depth) is Ok,
    ensures
        advanced(
            defs,
            visiting,
            passed,
            restrict(p, inside, defs, visiting, passed, depth)->Ok_0,
        ),
        covered(
            p,
            defs,
            visiting,
            restrict(p, inside, defs, visiting, passed, depth)->Ok_0,
        ),
    decreases depth, p, 0nat,
{
    let after = restrict(p, inside, defs, visiting, passed, depth)->Ok_0;
    match p {
        PatternModel::Ref(name) => {
            if passed.contains((name, inside)) {
                assert(named(after, name));
            } else if visiting.contains((name, inside)) {
                assert(named(visiting, name));
            } else if has_key(defs, name) {
                lemma_checking_count(visiting, defs);
                let target = lookup(defs, name)->0;
                let inner = visiting.push((name, inside));
                let below = (depth - 1) as nat;
                lemma_checking_more(defs, visiting, depth, name, inside);
                lemma_restrict_covers(target, inside, defs, inner, passed, below);
                let middle = restrict(target, inside, defs, inner, passed, below)->Ok_0;
                lemma_followed(target, name, inside, defs, visiting, passed, middle);
                assert(fit(target, defs));
            }
        },
        PatternModel::Data { datatype, datatype_library, params, except, context } => {
            assert forall|m: Text| !(#[trigger] mentions(p, m)) by {
                if mentions(p, m) {
                    assert(some_mentions(except, m));
                    let i = choose|i: int|
                        0 <= i < except.len() && mentions(#[trigger] except[i], m);
                    lemma_each_excepts(except, except.len(), i);
                    lemma_excepts_mention_nothing(except[i], m);
                }
            }
        },
        _ => {
            if operands(p) is Some {
                let values = operands(p)->0;
                lemma_operands(p);
                lemma_restrict_all_covers(
                    values,
                    own(p, inside),
                    defs,
                    visiting,
                    passed,
                    depth,
                    values.len(),
                );
                assert forall|m: Text|
                    has_key(defs, m) && #[trigger] mentions(p, m) implies named(visiting, m)
                    || named(after, m) by {
                    assert(some_mentions(values, m));
                    let i = choose|i: int|
                        0 <= i < values.len() && mentions(#[trigger] values[i], m);
                    assert(covered(values[i], defs, visiting, after));
                }
            }
        },
    }
}

/// A reference that has been followed.
proof fn lemma_followed(
    target: PatternModel,
    name: Text,
    inside: Inside,
    defs: Defs,
    visiting: Passed,
    passed: Passed,
    middle: Passed,
)
    requires
        lookup(defs, name) == Some(target),
        fit(target, defs),
        advanced(defs, visiting.push((name, inside)), passed, middle),
        covered(target, defs, visiting.push((name, inside)), middle),
    ensures
        advanced(defs, visiting, passed, middle.push((name, inside))),
        covered(PatternModel::Ref(name), defs, visiting, middle.push((name, inside))),
{
    let inner = visiting.push((name, inside));
    let after = middle.push((name, inside));
    assert(after.last() == (name, inside));
    assert(after.contains((name, inside)));
    assert(named(after, name));
    assert forall|x: (Text, Inside)| #[trigger] middle.contains(x) implies after.contains(x) by {
        let k = choose|k: int| 0 <= k < middle.len() && middle[k] == x;
        assert(after[k] == x);
    }
    assert forall|a: Text| #[trigger] named(after, a) && !named(passed, a) implies has_key(defs, a)
        && fit(lookup(defs, a)->0, defs) && covered(
        lookup(defs, a)->0,
        defs,
        visiting,
        after,
    ) by {
        if a != name {
            let flags = choose|flags: Inside| #[trigger] after.contains((a, flags));
            let k = choose|k: int| 0 <= k < after.len() && after[k] == (a, flags);
            assert(middle[k] == (a, flags));
            assert(middle.contains((a, flags)));
            assert(named(middle, a));
        }
        let p = lookup(defs, a)->0;
        assert(covered(p, defs, inner, middle));
        assert forall|m: Text|
            has_key(defs, m) && #[trigger] mentions(p, m) implies named(visiting, m) || named(
            after,
            m,
        ) by {
            if m != name {
                if named(inner, m) {
                    let flags = choose|flags: Inside| #[trigger] inner.contains((m, flags));
                    let k = choose|k: int| 0 <= k < inner.len() && inner[k] == (m, flags);
                    assert(visiting[k] == (m, flags));
                    assert(visiting.contains((m, flags)));
                } else {
                    lemma_named_later(middle, after, m);
                }
            }
        }
    }
}

/// The check of patterns follows every reference that it comes to.
proof fn lemma_restrict_all_covers(
    s: Seq<PatternModel>,
    inside: Inside,
    defs: Defs,
    visiting: Passed,
    passed: Passed,
    depth: nat,
    n: nat,
)
    requires
        checking_enough(defs, visiting, depth),
        restrict_all(s, inside, defs, visiting, passed, depth, n) is Ok,
        n <= s.len(),
    ensures
        ({
            let after = restrict_all(s, inside, defs, visiting, passed, depth, n)->Ok_0;
            &&& advanced(defs, visiting, passed, after)
            &&& forall|i: int| 0 <= i < n ==> covered(#[trigger] s[i], defs, visiting, after)
        }),
    decreases depth, s, n,
{
    let after = restrict_all(s, inside, defs, visiting, passed, depth, n)->Ok_0;
    if n > 0 {
        let m = (n - 1) as nat;
        lemma_restrict_all_covers(s, inside, defs, visiting, passed, depth, m);
        let middle = restrict_all(s, inside, defs, visiting, passed, depth, m)->Ok_0;
        lemma_restrict_covers(s[n - 1], inside, defs, visiting, middle, depth);
        lemma_advanced(defs, visiting, passed, middle, after);
        assert forall|i: int| 0 <= i < n implies covered(
            #[trigger] s[i],
            defs,
            visiting,
            after,
        ) by {
            if i < m {
                lemma_covered_later(s[i], defs, visiting, middle, after);
            }
        }
    }
}

/// The names that a pattern reaches are among those that it refers to, that they refer to,
/// and so on.
proof fn lemma_reached_least(
    p: PatternModel,
    defs: Defs,
    seen: Names,
    depth: nat,
    after: Passed,
    x: Text,
)
    requires
        covered(p, defs, Seq::empty(), after),
        forall|a: Text| #[trigger]
            named(after, a) ==> covered(lookup(defs, a)->0, defs, Seq::empty(), after),
        has_key(reached(p, defs, seen, depth), x),
    ensures
        has_key(seen, x) || named(after, x),
    decreases depth, p, 0nat,
{
    let none = Seq::<(Text, Inside)>::empty();
    match p {
        PatternModel::Ref(name) => {
            if has_key(defs, name) && !has_key(seen, name) && depth > 0 {
                assert(mentions(p, name));
                assert(!named(none, name));
                assert(named(after, name));
                let more = inserted(seen, name, ());
                lemma_reached_least(
                    lookup(defs, name)->0,
                    defs,
                    more,
                    (depth - 1) as nat,
                    after,
                    x,
                );
                if has_key(more, x) && x != name {
                    let i = lemma_lookup_index(more, x);
                    lemma_inserted_entries(seen, name, ());
                    assert(more[i] != (name, ()));
                    let k = choose|k: int| 0 <= k < seen.len() && seen[k] == more[i];
                    lemma_has_key_at(seen, k);
                }
            }
        },
        _ => {
            if operands(p) is Some {
                let values = operands(p)->0;
                lemma_operands(p);
                assert forall|i: int| 0 <= i < values.len() implies covered(
                    #[trigger] values[i],
                    defs,
                    none,
                    after,
                ) by {
                    assert forall|m: Text|
                        has_key(defs, m) && #[trigger] mentions(values[i], m) implies named(none, m)
                        || named(after, m) by {
                        assert(some_mentions(values, m));
                        assert(mentions(p, m));
                    }
                }
                lemma_reached_all_least(values, defs, seen, depth, after, x, values.len());
            }
        },
    }
}

/// The names that patterns reach are among those that they refer to, that these refer to,
/// and so on.
proof fn lemma_reached_all_least(
    s: Seq<PatternModel>,
    defs: Defs,
    seen: Names,
    depth: nat,
    after: Passed,
    x: Text,
    n: nat,
)
    requires
        n <= s.len(),
        forall|i: int| 0 <= i < s.len() ==> covered(#[trigger] s[i], defs, Seq::empty(), after),
        forall|a: Text| #[trigger]
            named(after, a) ==> covered(lookup(defs, a)->0, defs, Seq::empty(), after),
        has_key(reached_all(s, defs, seen, depth, n), x),
    ensures
        has_key(seen, x) || named(after, x),
    decreases depth, s, n,
{
    if n > 0 {
        let m = (n - 1) as nat;
        let before = reached_all(s, defs, seen, depth, m);
        assert(covered(s[n - 1], defs, Seq::empty(), after));
        lemma_reached_least(s[n - 1], defs, before, depth, after, x);
        if has_key(before, x) {
            lemma_reached_all_least(s, defs, seen, depth, after, x, m);
        }
    }
}

/// Each named pattern that the start does not reach, passes.
proof fn lemma_unreached_fits(
    defs: Defs,
    names: Names,
    passed: Passed,
    depth: nat,
    n: nat,
    i: int,
)
    requires
        restrict_unreached(defs, names, passed, depth, n) is Ok,
        0 <= i < n <= defs.len(),
        !has_key(names, defs[i].0),
    ensures
        fit(defs[i].1, defs),
    decreases n,
{
    let m = (n - 1) as nat;
    if i < m {
        lemma_unreached_fits(defs, names, passed, depth, m, i);
    } else {
        let before = restrict_unreached(defs, names, passed, depth, m)->Ok_0;
        assert(restrict(
            defs[i].1,
            inside_nothing(),
            defs,
            Seq::empty(),
            before,
            depth,
        ) is Ok);
    }
}

/// Every named pattern of an accepted schema passes.
proof fn lemma_every_name_fits(schema: SchemaModel, depth: nat, name: Text)
    requires
        schema_problem(schema, depth) is None,
        16 * schema.definitions.len() < depth,
        has_key(schema.definitions, name),
    ensures
        fit(lookup(schema.definitions, name)->0, schema.definitions),
{
    let defs = schema.definitions;
    let none = Seq::<(Text, Inside)>::empty();
    let empty = Seq::<(Text, Inside)>::empty();
    let names = reached(schema.start, defs, Seq::empty(), depth);
    let after = restrict(schema.start, inside_nothing(), defs, none, empty, depth)->Ok_0;
    lemma_restrict_covers(schema.start, inside_nothing(), defs, none, empty, depth);
    assert forall|a: Text| #[trigger] named(after, a) implies covered(
        lookup(defs, a)->0,
        defs,
        none,
        after,
    ) && fit(lookup(defs, a)->0, defs) by {
        assert(!named(empty, a));
    }
    if has_key(names, name) {
        lemma_reached_least(schema.start, defs, Seq::empty(), depth, after, name);
    } else {
        let i = lemma_lookup_index(defs, name);
        lemma_unreached_fits(defs, names, after, depth, defs.len(), i);
    }
}

/// Whatever occurs in an accepted schema passes.
proof fn lemma_fits(schema: SchemaModel, depth: nat, q: PatternModel)
    requires
        schema_problem(schema, depth) is None,
        16 * schema.definitions.len() < depth,
        occurs_in(schema, q),
    ensures
        q is Value || q is Choice || fit(q, schema.definitions) || (q is Data && forall|i: int|
            0 <= i < operands(q)->0.len() ==> except_problem(#[trigger] operands(q)->0[i]) is None),
{
    let defs = schema.definitions;
    if occurs(schema.start, q) {
        lemma_occurrence_fits(
            schema.start,
            q,
            inside_nothing(),
            defs,
            Seq::empty(),
            Seq::empty(),
            depth,
        );
    } else {
        let name = choose|name: Text|
            has_key(defs, name) && occurs((#[trigger] lookup(defs, name))->0, q);
        lemma_every_name_fits(schema, depth, name);
        let p = lookup(defs, name)->0;
        let (inside, visiting, passed, d) = choose|
            inside: Inside,
            visiting: Passed,
            passed: Passed,
            d: nat,
        | #[trigger] restrict(p, inside, defs, visiting, passed, d) is Ok;
        lemma_occurrence_fits(p, q, inside, defs, visiting, passed, d);
    }
}

// ---------------------------------------------------------------------
// What it comes to
// ---------------------------------------------------------------------

/// In an accepted schema no attribute holds an attribute or an element.
pub proof fn law_attributes_hold_no_attribute_or_element(
    root: RootModel,
    log: Feed,
    p: PatternModel,
    q: PatternModel,
)
    requires
        compiled(root, log) is Ok,
        16 * compiled(root, log)->Ok_0.definitions.len() < MAX_DEPTH,
        occurs_in(compiled(root, log)->Ok_0, p),
        p is Attribute,
        part(p, q),
    ensures
        !(q is Attribute),
        !(q is Element),
{
    let schema = compiled(root, log)->Ok_0;
    let defs = schema.definitions;
    lemma_fits(schema, MAX_DEPTH as nat, p);
    let (inside, visiting, passed, d) = choose|
        inside: Inside,
        visiting: Passed,
        passed: Passed,
        d: nat,
    | #[trigger] restrict(p, inside, defs, visiting, passed, d) is Ok;
    let (flags, before) = lemma_part_passes(p, q, inside, defs, visiting, passed, d);
}

/// In an accepted schema no list holds an attribute, an element, text, another list or an
/// interleave.
pub proof fn law_lists_hold_only_data(
    root: RootModel,
    log: Feed,
    p: PatternModel,
    q: PatternModel,
)
    requires
        compiled(root, log) is Ok,
        16 * compiled(root, log)->Ok_0.definitions.len() < MAX_DEPTH,
        occurs_in(compiled(root, log)->Ok_0, p),
        p is List,
        part(p, q),
    ensures
        !(q is Attribute),
        !(q is Element),
        !(q is Text),
        !(q is List),
        !(q is Interleave),
{
    let schema = compiled(root, log)->Ok_0;
    let defs = schema.definitions;
    lemma_fits(schema, MAX_DEPTH as nat, p);
    let (inside, visiting, passed, d) = choose|
        inside: Inside,
        visiting: Passed,
        passed: Passed,
        d: nat,
    | #[trigger] restrict(p, inside, defs, visiting, passed, d) is Ok;
    let (flags, before) = lemma_part_passes(p, q, inside, defs, visiting, passed, d);
}

/// In an accepted schema no group or interleave inside a repetition holds an attribute.
pub proof fn law_repeated_groups_hold_no_attribute(
    root: RootModel,
    log: Feed,
    p: PatternModel,
    g: PatternModel,
    q: PatternModel,
)
    requires
        compiled(root, log) is Ok,
        16 * compiled(root, log)->Ok_0.definitions.len() < MAX_DEPTH,
        occurs_in(compiled(root, log)->Ok_0, p),
        p is OneOrMore,
        part(p, g),
        g is Group || g is Interleave,
        part(g, q),
    ensures
        !(q is Attribute),
{
    let schema = compiled(root, log)->Ok_0;
    let defs = schema.definitions;
    lemma_fits(schema, MAX_DEPTH as nat, p);
    let (inside, visiting, passed, d) = choose|
        inside: Inside,
        visiting: Passed,
        passed: Passed,
        d: nat,
    | #[trigger] restrict(p, inside, defs, visiting, passed, d) is Ok;
    let (flags, before) = lemma_part_passes(p, g, inside, defs, visiting, passed, d);
    let (more, last) = lemma_part_passes(g, q, flags, defs, visiting, before, d);
}

/// In an accepted schema the exceptions of a datatype are made of `data`, `value` and
/// choices.
pub proof fn law_exceptions_are_data(
    root: RootModel,
    log: Feed,
    p: PatternModel,
    q: PatternModel,
)
    requires
        compiled(root, log) is Ok,
        16 * compiled(root, log)->Ok_0.definitions.len() < MAX_DEPTH,
        occurs_in(compiled(root, log)->Ok_0, p),
        p is Data,
        part(p, q),
    ensures
        q is Data || q is Value || q is Choice,
{
    let schema = compiled(root, log)->Ok_0;
    let defs = schema.definitions;
    lemma_fits(schema, MAX_DEPTH as nat, p);
    let values = operands(p)->0;
    assert(some_part(values, q));
    let i = choose|i: int|
        0 <= i < values.len() && (#[trigger] values[i] == q || !(values[i] is Element) && part(
            values[i],
            q,
        ));
    if fit(p, defs) {
        let (inside, visiting, passed, d) = choose|
            inside: Inside,
            visiting: Passed,
            passed: Passed,
            d: nat,
        | #[trigger] restrict(p, inside, defs, visiting, passed, d) is Ok;
        lemma_each_excepts(values, values.len(), i);
    }
    if values[i] != q {
        lemma_part_occurs(values[i], q);
    }
    lemma_excepts(values[i], q);
}

// ---------------------------------------------------------------------
// What stands beside what
// ---------------------------------------------------------------------

/// Whether a pattern occurs in another, neither inside a list nor among the exceptions of a
/// datatype.
pub open spec fn stands(p: PatternModel, q: PatternModel) -> bool
    decreases p,
{
    p == q || !(p is List) && !(p is Data) && match operands(p) {
        Some(values) => {
            proof {
                lemma_operands(p);
            }
            some_stands(values, q)
        },
        None => false,
    }
}

/// Whether a pattern occurs in some of others, neither inside a list nor among the
/// exceptions of a datatype.
pub open spec fn some_stands(s: Seq<PatternModel>, q: PatternModel) -> bool
    decreases s,
{
    exists|i: int| 0 <= i < s.len() && stands(#[trigger] s[i], q)
}

/// Whether a pattern occurs in a composed schema, neither inside a list nor among the
/// exceptions of a datatype.
pub open spec fn stands_in(schema: SchemaModel, q: PatternModel) -> bool {
    stands(schema.start, q) || exists|i: int|
        0 <= i < schema.definitions.len() && stands((#[trigger] schema.definitions[i]).1, q)
}

/// There is no complaint about any one of patterns.
pub proof fn lemma_each_grouped(s: Seq<PatternModel>, defs: Defs, depth: nat, n: nat, i: int)
    requires
        all_groups_problem(s, defs, depth, n) is None,
        0 <= i < n <= s.len(),
    ensures
        groups_problem(s[i], defs, depth) is None,
    decreases n,
{
    if i < n - 1 {
        lemma_each_grouped(s, defs, depth, (n - 1) as nat, i);
    }
}

/// There is no complaint about what stands in a pattern, where there is none about the
/// pattern.
proof fn lemma_grouped(p: PatternModel, q: PatternModel, defs: Defs, depth: nat)
    requires
        groups_problem(p, defs, depth) is None,
        stands(p, q),
    ensures
        groups_problem(q, defs, depth) is None,
    decreases p,
{
    if p != q {
        let values = operands(p)->0;
        lemma_operands(p);
        assert(some_stands(values, q));
        let i = choose|i: int| 0 <= i < values.len() && stands(#[trigger] values[i], q);
        lemma_each_grouped(values, defs, depth, values.len(), i);
        lemma_grouped(values[i], q, defs, depth);
    }
}

/// There is no complaint about one operand with a certain later one, where there is none
/// about it with any.
pub proof fn lemma_pair(s: Seq<Holdings>, is_interleave: bool, m: nat, i: int, j: int)
    requires
        row_problem(s, i, is_interleave, m) is None,
        0 <= i < j < m <= s.len(),
    ensures
        pair_problem(s[i], s[j], is_interleave) is None,
    decreases m,
{
    if j < m - 1 {
        lemma_pair(s, is_interleave, (m - 1) as nat, i, j);
    }
}

/// There is no complaint about one operand with later ones, where there is none about any.
pub proof fn lemma_row(s: Seq<Holdings>, is_interleave: bool, n: nat, i: int)
    requires
        rows_problem(s, is_interleave, n) is None,
        0 <= i < n <= s.len(),
    ensures
        row_problem(s, i, is_interleave, s.len()) is None,
    decreases n,
{
    if i < n - 1 {
        lemma_row(s, is_interleave, (n - 1) as nat, i);
    }
}

/// There is no complaint about any one of named patterns.
pub proof fn lemma_each_name_grouped(defs: Defs, depth: nat, n: nat, i: int)
    requires
        defs_groups_problem(defs, depth, n) is None,
        0 <= i < n <= defs.len(),
    ensures
        groups_problem(defs[i].1, defs, depth) is None,
    decreases n,
{
    if i < n - 1 {
        lemma_each_name_grouped(defs, depth, (n - 1) as nat, i);
    }
}

/// In an accepted schema, two operands of one group or interleave do not get in each
/// other's way: where the one can match a string, the other matches no child at all, and no
/// two of their attributes are taken to share a name. Those of an interleave do not both
/// hold text either, and no two of their elements are taken to share a name.
pub proof fn law_operands_do_not_clash(
    root: RootModel,
    log: Feed,
    p: PatternModel,
    i: int,
    j: int,
)
    requires
        compiled(root, log) is Ok,
        stands_in(compiled(root, log)->Ok_0, p),
        p is Group || p is Interleave,
        0 <= i < j < operands(p)->0.len(),
    ensures
        ({
            let defs = compiled(root, log)->Ok_0.definitions;
            let depth = MAX_DEPTH as nat;
            let left = held(operands(p)->0[i], defs, Seq::empty(), nothing_held(), depth);
            let right = held(operands(p)->0[j], defs, Seq::empty(), nothing_held(), depth);
            &&& left.string_capable ==> !right.child_capable
            &&& right.string_capable ==> !left.child_capable
            &&& !some_overlap(left.attributes, right.attributes)
            &&& p is Interleave ==> !(left.has_text && right.has_text)
            &&& p is Interleave ==> !some_overlap(left.elements, right.elements)
        }),
{
    let schema = compiled(root, log)->Ok_0;
    let defs = schema.definitions;
    let depth = MAX_DEPTH as nat;
    if stands(schema.start, p) {
        lemma_grouped(schema.start, p, defs, depth);
    } else {
        let k = choose|k: int| 0 <= k < defs.len() && stands((#[trigger] defs[k]).1, p);
        lemma_each_name_grouped(defs, depth, defs.len(), k);
        lemma_grouped(defs[k].1, p, defs, depth);
    }
    let values = operands(p)->0;
    let s = holdings_of(values, defs, depth);
    lemma_row(s, p is Interleave, s.len(), i);
    lemma_pair(s, p is Interleave, s.len(), i, j);
}

// ---------------------------------------------------------------------
// What a schema starts with
// ---------------------------------------------------------------------

/// Whether a pattern is come to from another through choices and references, where
/// references are followed to the given depth.
pub open spec fn opens_with(p: PatternModel, q: PatternModel, defs: Defs, depth: nat) -> bool
    decreases depth, p,
{
    p == q || match p {
        PatternModel::Choice(values) => some_open_with(values, q, defs, depth),
        PatternModel::Ref(name) => depth > 0 && match lookup(defs, name) {
            Some(target) => opens_with(target, q, defs, (depth - 1) as nat),
            None => false,
        },
        _ => false,
    }
}

/// Whether a pattern is come to from some of others through choices and references.
pub open spec fn some_open_with(s: Seq<PatternModel>, q: PatternModel, defs: Defs, depth: nat) -> bool
    decreases depth, s,
{
    exists|i: int| 0 <= i < s.len() && opens_with(#[trigger] s[i], q, defs, depth)
}

/// There is no complaint about any one alternative of a start.
proof fn lemma_each_starts(
    s: Seq<PatternModel>,
    defs: Defs,
    visiting: Seq<Text>,
    depth: nat,
    n: nat,
    i: int,
)
    requires
        start_problems(s, defs, visiting, depth, n) is None,
        0 <= i < n <= s.len(),
    ensures
        start_problem(s[i], defs, visiting, depth) is None,
    decreases n,
{
    if i < n - 1 {
        lemma_each_starts(s, defs, visiting, depth, (n - 1) as nat, i);
    }
}

/// What a start without a complaint comes to is in order. No reference leads to a name that
/// is being followed, since references fall.
proof fn lemma_starts(
    p: PatternModel,
    q: PatternModel,
    defs: Defs,
    names: Names,
    rank: spec_fn(Text) -> nat,
    r: nat,
    visiting: Seq<Text>,
    depth: nat,
    d: nat,
)
    requires
        well_ranked(defs, names, rank),
        refers_below(p, defs, names, rank, r),
        forall|x: Text| #[trigger] visiting.contains(x) ==> rank(x) >= r,
        deep_enough(defs, visiting, depth),
        start_problem(p, defs, visiting, depth) is None,
        opens_with(p, q, defs, d),
        in_form(p, false),
        defs_in_form(defs),
    ensures
        q is Element || q is NotAllowed || q is Choice || q is Ref,
    decreases d, p,
{
    if p != q {
        match p {
            PatternModel::Choice(values) => {
                assert(some_open_with(values, q, defs, d));
                let i = choose|i: int|
                    0 <= i < values.len() && opens_with(#[trigger] values[i], q, defs, d);
                lemma_each_starts(values, defs, visiting, depth, values.len(), i);
                lemma_operand_below(p, values, i, defs, names, rank, r);
                lemma_starts(values[i], q, defs, names, rank, r, visiting, depth, d);
            },
            PatternModel::Ref(name) => {
                let target = lookup(defs, name)->0;
                let k = lemma_lookup_index(defs, name);
                assert(in_form(defs[k].1, false));
                assert(ref_edges(p)[0] == name);
                assert(ref_edges(p).contains(name));
                assert(!visiting.contains(name));
                lemma_visiting_count(visiting, defs);
                let inner = visiting.push(name);
                assert forall|x: Text| #[trigger] inner.contains(x) implies has_key(defs, x)
                    && rank(x) >= rank(name) by {
                    if x != name {
                        let j = choose|j: int| 0 <= j < inner.len() && inner[j] == x;
                        assert(visiting[j] == x);
                        assert(visiting.contains(x));
                    }
                }
                assert forall|b: Text| #[trigger]
                    ref_edges(target).contains(b) && has_key(defs, b) implies has_key(names, b)
                    && rank(b) < rank(name) by {
                    assert(edge(defs, name, b));
                }
                lemma_starts(
                    target,
                    q,
                    defs,
                    names,
                    rank,
                    rank(name),
                    inner,
                    (depth - 1) as nat,
                    (d - 1) as nat,
                );
            },
            _ => {},
        }
    }
}

/// An accepted schema starts with elements, or with nothing that is allowed: choices and
/// references lead from its start to nothing else.
pub proof fn law_schemas_start_with_elements(
    root: RootModel,
    log: Feed,
    q: PatternModel,
    d: nat,
)
    requires
        compiled(root, log) is Ok,
        compiled(root, log)->Ok_0.definitions.len() < MAX_DEPTH,
        opens_with(compiled(root, log)->Ok_0.start, q, compiled(root, log)->Ok_0.definitions, d),
    ensures
        q is Element || q is NotAllowed || q is Choice || q is Ref,
{
    let schema = compiled(root, log)->Ok_0;
    let defs = schema.definitions;
    let depth = MAX_DEPTH as nat;
    law_composed_schema_is_in_form(root, log);
    law_reached_names_are_closed(schema.start, defs, depth);
    let rank = lemma_well_ranked(schema.start, schema.start, defs, depth);
    let names = reached(schema.start, defs, Seq::empty(), depth);
    let none = Seq::<Text>::empty();
    lemma_starts(schema.start, q, defs, names, rank, defs.len(), none, depth, d);
}

} // verus!
