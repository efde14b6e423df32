//! The content models of an accepted schema keep to what validation rests on.
use vstd::prelude::*;

use crate::acyclic::{
    chain, chained, edge, law_reached_names_are_chained, law_reached_names_are_closed,
    lemma_longer_chain, mentions, some_mentions,
};
use crate::compose::{compiled, defs_groups_problem, lemma_operands, operands, schema_problem};
use crate::conformance::{
    having, law_valid_content_is_accepted_content, no_blank_text, orderly, sequence, setting,
};
use crate::data_apart::{
    all_data_apart_within, all_settled_within, choices_settled_within, data_apart_within,
    row_apart_within, settled_within,
};
use crate::datatypes::registry::RegistryModel;
use crate::derivative::{Defs, MAX_DEPTH};
use crate::documents::{describes, law_valid_documents_match_the_schema};
use crate::forms::{all_in_form, defs_in_form, in_form, law_composed_schema_is_in_form};
use crate::grammar::{PatternModel, RootModel};
use crate::grounded::{all_grounded, grounded};
use crate::matching::meets;
use crate::name_class::holds_name;
use crate::placement::{
    checking_enough, deep_enough, lemma_checking_more, lemma_each_excepts, lemma_each_grouped,
    lemma_each_name_grouped, lemma_excepts, lemma_excepts_mention_nothing, lemma_pair, lemma_row,
    lemma_visiting_count, named, occurs, opens_with, own, some_occurs, some_open_with,
};
use crate::recognition::{lemma_operand_below, lemma_well_ranked, refers_below, well_ranked};
use crate::recursion::{all_ref_edges, reached, ref_edges, Names};
use crate::restrictions::{
    all_groups_problem, except_problem, except_problems, groups_problem, held, held_all,
    holdings_of, inside_nothing, nothing_held, restrict, restrict_all, rows_problem, Holdings,
    Inside, Passed,
};
use crate::shapes::{
    all_attribute_free, all_attributes_apart, all_shaped_within, attribute_free,
    attributes_apart, childless, shaped_within, Shape,
};
use crate::simplify::{Feed, SchemaModel};
use crate::string_map::{has_key, lemma_lookup_index, lookup};
use crate::text::Text;
use crate::validator::{document_errors, is_valid, ElementModel};

verus! {

// ---------------------------------------------------------------------
// What has passed, inside of what
// ---------------------------------------------------------------------

/// Whether a pattern may stand inside of something, where the named patterns that it refers
/// to may if they are among the given ones.
spec fn obeys(p: PatternModel, inside: Inside, defs: Defs, known: Passed) -> bool
    decreases p,
{
    match p {
        PatternModel::Ref(name) => has_key(defs, name) ==> known.contains((name, inside)),
        PatternModel::Data { datatype, datatype_library, params, except, context } =>
            except_problems(except, except.len()) is None,
        _ => {
            &&& p is Attribute ==> !inside.list && !inside.attribute && !inside.container
            &&& p is Element ==> !inside.list && !inside.attribute
            &&& p is List || p is Interleave || p is Text ==> !inside.list
            &&& match operands(p) {
                Some(values) => {
                    proof {
                        lemma_operands(p);
                    }
                    all_obey(values, own(p, inside), defs, known)
                },
                None => true,
            }
        },
    }
}

/// Whether patterns may stand inside of something.
spec fn all_obey(s: Seq<PatternModel>, inside: Inside, defs: Defs, known: Passed) -> bool
    decreases s,
{
    forall|i: int| 0 <= i < s.len() ==> obeys(#[trigger] s[i], inside, defs, known)
}

/// Whether all that is known is known later.
spec fn among(known: Passed, more: Passed) -> bool {
    forall|x: (Text, Inside)| #[trigger] known.contains(x) ==> more.contains(x)
}

/// Whether named patterns may stand inside of what they are checked inside of.
spec fn closed(defs: Defs, passed: Passed, known: Passed) -> bool {
    forall|x: (Text, Inside)| #[trigger]
        passed.contains(x) ==> has_key(defs, x.0) && obeys(lookup(defs, x.0)->0, x.1, defs, known)
}

/// What may stand somewhere may still do so where more is known.
proof fn lemma_obeys_more(p: PatternModel, inside: Inside, defs: Defs, known: Passed, more: Passed)
    requires
        obeys(p, inside, defs, known),
        among(known, more),
    ensures
        obeys(p, inside, defs, more),
    decreases p,
{
    if !(p is Ref) && !(p is Data) && operands(p) is Some {
        let values = operands(p)->0;
        lemma_operands(p);
        assert forall|i: int| 0 <= i < values.len() implies obeys(
            #[trigger] values[i],
            own(p, inside),
            defs,
            more,
        ) by {
            lemma_obeys_more(values[i], own(p, inside), defs, known, more);
        }
        assert(all_obey(values, own(p, inside), defs, more));
    }
}

/// Whether what has passed since may stand where it does, given what has passed and what is
/// being checked.
spec fn grown(defs: Defs, visiting: Passed, passed: Passed, after: Passed) -> bool {
    &&& among(passed, after)
    &&& forall|x: (Text, Inside)| #[trigger]
        after.contains(x) && !passed.contains(x) ==> has_key(defs, x.0) && obeys(
            lookup(defs, x.0)->0,
            x.1,
            defs,
            after + visiting,
        )
}

/// What is known of two kinds.
proof fn lemma_known(a: Passed, b: Passed)
    ensures
        forall|x: (Text, Inside)| #[trigger]
            (a + b).contains(x) <==> a.contains(x) || b.contains(x),
{
    let both = a + b;
    assert forall|x: (Text, Inside)| #[trigger]
        both.contains(x) <==> a.contains(x) || b.contains(x) by {
        if a.contains(x) {
            let k = choose|k: int| 0 <= k < a.len() && a[k] == x;
            assert(both[k] == x);
        }
        if b.contains(x) {
            let k = choose|k: int| 0 <= k < b.len() && b[k] == x;
            assert(both[a.len() + k] == x);
        }
        if both.contains(x) {
            let k = choose|k: int| 0 <= k < both.len() && both[k] == x;
            if k < a.len() {
                assert(a[k] == x);
            } else {
                assert(b[k - a.len()] == x);
            }
        }
    }
}

/// What is known with one more.
proof fn lemma_pushed(a: Passed, x: (Text, Inside))
    ensures
        forall|y: (Text, Inside)| #[trigger] a.push(x).contains(y) <==> a.contains(y) || y == x,
{
    let more = a.push(x);
    assert forall|y: (Text, Inside)| #[trigger] more.contains(y) <==> a.contains(y) || y == x by {
        if a.contains(y) {
            let k = choose|k: int| 0 <= k < a.len() && a[k] == y;
            assert(more[k] == y);
        }
        if y == x {
            assert(more[a.len() as int] == y);
        }
        if more.contains(y) {
            let k = choose|k: int| 0 <= k < more.len() && more[k] == y;
            if k < a.len() {
                assert(a[k] == y);
            }
        }
    }
}

/// What passes the check may stand where it does, and so may what it refers to.
proof fn lemma_restrict_obeys(
    p: PatternModel,
    inside: Inside,
    defs: Defs,
    visiting: Passed,
    passed: Passed,
    depth: nat,
)
    requires
        checking_enough(defs, visiting, depth),
        restrict(p, inside, defs, visiting, passed, depth) is Ok,
    ensures
        ({
            let after = restrict(p, inside, defs, visiting, passed, depth)->Ok_0;
            &&& grown(defs, visiting, passed, after)
            &&& obeys(p, inside, defs, after + visiting)
        }),
    decreases depth, p, 0nat,
{
    let after = restrict(p, inside, defs, visiting, passed, depth)->Ok_0;
    lemma_known(after, visiting);
    match p {
        PatternModel::Ref(name) => {
            let x = (name, inside);
            if has_key(defs, name) && !passed.contains(x) && !visiting.contains(x) {
                let target = lookup(defs, name)->0;
                let inner = visiting.push(x);
                lemma_checking_more(defs, visiting, depth, name, inside);
                let below = (depth - 1) as nat;
                lemma_restrict_obeys(target, inside, defs, inner, passed, below);
                let middle = restrict(target, inside, defs, inner, passed, below)->Ok_0;
                lemma_known(middle, inner);
                lemma_pushed(middle, x);
                lemma_pushed(visiting, x);
                assert(after == middle.push(x));
                assert(among(middle + inner, after + visiting));
                assert forall|y: (Text, Inside)| #[trigger]
                    after.contains(y) && !passed.contains(y) implies has_key(defs, y.0) && obeys(
                    lookup(defs, y.0)->0,
                    y.1,
                    defs,
                    after + visiting,
                ) by {
                    if y == x {
                        lemma_obeys_more(
                            target,
                            inside,
                            defs,
                            middle + inner,
                            after + visiting,
                        );
                    } else {
                        assert(middle.contains(y));
                        lemma_obeys_more(
                            lookup(defs, y.0)->0,
                            y.1,
                            defs,
                            middle + inner,
                            after + visiting,
                        );
                    }
                }
            }
        },
        PatternModel::Data { datatype, datatype_library, params, except, context } => {},
        _ => {
            if operands(p) is Some {
                let values = operands(p)->0;
                lemma_operands(p);
                lemma_restrict_all_obey(
                    values,
                    own(p, inside),
                    defs,
                    visiting,
                    passed,
                    depth,
                    values.len(),
                );
                assert(all_obey(values, own(p, inside), defs, after + visiting));
            }
        },
    }
}

/// What passes the check, each of patterns, may stand where it does.
proof fn lemma_restrict_all_obey(
    s: Seq<PatternModel>,
    inside: Inside,
    defs: Defs,
    visiting: Passed,
    passed: Passed,
    depth: nat,
    n: nat,
)
    requires
        checking_enough(defs, visiting, depth),
        restrict_all(s, inside, defs, visiting, passed, depth, n) is Ok,
        n <= s.len(),
    ensures
        ({
            let after = restrict_all(s, inside, defs, visiting, passed, depth, n)->Ok_0;
            &&& grown(defs, visiting, passed, after)
            &&& forall|i: int|
                0 <= i < n ==> obeys(#[trigger] s[i], inside, defs, after + visiting)
        }),
    decreases depth, s, n,
{
    if n > 0 {
        let after = restrict_all(s, inside, defs, visiting, passed, depth, n)->Ok_0;
        let m = (n - 1) as nat;
        lemma_restrict_all_obey(s, inside, defs, visiting, passed, depth, m);
        let middle = restrict_all(s, inside, defs, visiting, passed, depth, m)->Ok_0;
        lemma_restrict_obeys(s[n - 1], inside, defs, visiting, middle, depth);
        lemma_known(middle, visiting);
        lemma_known(after, visiting);
        assert(among(middle + visiting, after + visiting));
        assert forall|y: (Text, Inside)| #[trigger]
            after.contains(y) && !passed.contains(y) implies has_key(defs, y.0) && obeys(
            lookup(defs, y.0)->0,
            y.1,
            defs,
            after + visiting,
        ) by {
            if middle.contains(y) {
                lemma_obeys_more(
                    lookup(defs, y.0)->0,
                    y.1,
                    defs,
                    middle + visiting,
                    after + visiting,
                );
            }
        }
        assert forall|i: int| 0 <= i < n implies obeys(
            #[trigger] s[i],
            inside,
            defs,
            after + visiting,
        ) by {
            if i < m {
                lemma_obeys_more(s[i], inside, defs, middle + visiting, after + visiting);
            }
        }
    }
}

// ---------------------------------------------------------------------
// Shapes
// ---------------------------------------------------------------------

/// Whether a content model holds nothing but attributes and what a shape allows, as far as
/// references are followed to the given depth.
pub open spec fn keeps_to_within(p: PatternModel, shape: Shape, defs: Defs, depth: nat) -> bool
    decreases depth, p,
{
    match p {
        PatternModel::Empty => true,
        PatternModel::NotAllowed => true,
        PatternModel::Attribute { name, body, context } => true,
        PatternModel::Element { name, body, context } => shape.elements,
        PatternModel::Text => shape.text,
        PatternModel::Data { datatype, datatype_library, params, except, context } => shape.data,
        PatternModel::Value { value, datatype, datatype_library, namespace, context } => shape.data,
        PatternModel::List(values) => shape.data,
        PatternModel::Group(values) => all_keep_to_within(values, shape, defs, depth),
        PatternModel::Interleave(values) => all_keep_to_within(values, shape, defs, depth),
        PatternModel::Choice(values) => all_keep_to_within(values, shape, defs, depth),
        PatternModel::OneOrMore(values) => all_keep_to_within(values, shape, defs, depth),
        PatternModel::Ref(name) => depth > 0 ==> match lookup(defs, name) {
            Some(target) => keeps_to_within(target, shape, defs, (depth - 1) as nat),
            None => true,
        },
        _ => false,
    }
}

/// Whether content models hold nothing but attributes and what a shape allows.
pub open spec fn all_keep_to_within(
    s: Seq<PatternModel>,
    shape: Shape,
    defs: Defs,
    depth: nat,
) -> bool
    decreases depth, s,
{
    forall|i: int| 0 <= i < s.len() ==> keeps_to_within(#[trigger] s[i], shape, defs, depth)
}

/// Whether a content model holds nothing but attributes and what a shape allows, however far
/// references are followed.
pub open spec fn keeps_to(p: PatternModel, shape: Shape, defs: Defs) -> bool {
    forall|depth: nat| #[trigger] keeps_to_within(p, shape, defs, depth)
}

/// Elements, text and data.
pub open spec fn anything() -> Shape {
    Shape { elements: true, text: true, data: true }
}

/// What is in form holds nothing but attributes, elements, text and data.
proof fn lemma_keeps_to_anything(p: PatternModel, defs: Defs, depth: nat)
    requires
        in_form(p, false),
        defs_in_form(defs),
    ensures
        keeps_to_within(p, anything(), defs, depth),
    decreases depth, p,
{
    match p {
        PatternModel::Group(values) => {
            lemma_all_keep_to_anything(values, defs, depth);
        },
        PatternModel::Interleave(values) => {
            lemma_all_keep_to_anything(values, defs, depth);
        },
        PatternModel::Choice(values) => {
            lemma_all_keep_to_anything(values, defs, depth);
        },
        PatternModel::OneOrMore(values) => {
            lemma_all_keep_to_anything(values, defs, depth);
        },
        PatternModel::Ref(name) => {
            if depth > 0 && has_key(defs, name) {
                let k = lemma_lookup_index(defs, name);
                assert(in_form(defs[k].1, false));
                lemma_keeps_to_anything(lookup(defs, name)->0, defs, (depth - 1) as nat);
            }
        },
        _ => {},
    }
}

/// What is in form, each of patterns, holds nothing but attributes, elements, text and data.
proof fn lemma_all_keep_to_anything(s: Seq<PatternModel>, defs: Defs, depth: nat)
    requires
        all_in_form(s, false),
        defs_in_form(defs),
    ensures
        all_keep_to_within(s, anything(), defs, depth),
    decreases depth, s,
{
    assert forall|i: int| 0 <= i < s.len() implies keeps_to_within(
        #[trigger] s[i],
        anything(),
        defs,
        depth,
    ) by {
        assert(in_form(s[i], false));
        lemma_keeps_to_anything(s[i], defs, depth);
    }
}

/// What may stand in a group or an interleave inside a repetition holds no attribute.
proof fn lemma_free(p: PatternModel, inside: Inside, defs: Defs, known: Passed, depth: nat)
    requires
        closed(defs, known, known),
        obeys(p, inside, defs, known),
        inside.container,
    ensures
        attribute_free(p, defs, depth),
    decreases depth, p,
{
    match p {
        PatternModel::Group(values) => {
            lemma_all_free(values, own(p, inside), defs, known, depth);
        },
        PatternModel::Interleave(values) => {
            lemma_all_free(values, own(p, inside), defs, known, depth);
        },
        PatternModel::Choice(values) => {
            lemma_all_free(values, own(p, inside), defs, known, depth);
        },
        PatternModel::OneOrMore(values) => {
            lemma_all_free(values, own(p, inside), defs, known, depth);
        },
        PatternModel::Ref(name) => {
            if depth > 0 && has_key(defs, name) {
                assert(known.contains((name, inside)));
                lemma_free(lookup(defs, name)->0, inside, defs, known, (depth - 1) as nat);
            }
        },
        _ => {},
    }
}

/// What may stand in a group or an interleave inside a repetition, each of patterns, holds
/// no attribute.
proof fn lemma_all_free(
    s: Seq<PatternModel>,
    inside: Inside,
    defs: Defs,
    known: Passed,
    depth: nat,
)
    requires
        closed(defs, known, known),
        all_obey(s, inside, defs, known),
        inside.container,
    ensures
        all_attribute_free(s, defs, depth),
    decreases depth, s,
{
    assert forall|i: int| 0 <= i < s.len() implies attribute_free(#[trigger] s[i], defs, depth) by {
        assert(obeys(s[i], inside, defs, known));
        lemma_free(s[i], inside, defs, known, depth);
    }
}

/// What may stand inside a repetition has its attributes in no group and no interleave.
proof fn lemma_apart(p: PatternModel, inside: Inside, defs: Defs, known: Passed, depth: nat)
    requires
        closed(defs, known, known),
        obeys(p, inside, defs, known),
        inside.one_or_more,
    ensures
        attributes_apart(p, defs, depth),
    decreases depth, p,
{
    match p {
        PatternModel::Group(values) => {
            lemma_all_free(values, own(p, inside), defs, known, depth);
        },
        PatternModel::Interleave(values) => {
            lemma_all_free(values, own(p, inside), defs, known, depth);
        },
        PatternModel::Choice(values) => {
            lemma_all_apart(values, own(p, inside), defs, known, depth);
        },
        PatternModel::OneOrMore(values) => {
            lemma_all_apart(values, own(p, inside), defs, known, depth);
        },
        PatternModel::Ref(name) => {
            if depth > 0 && has_key(defs, name) {
                assert(known.contains((name, inside)));
                lemma_apart(lookup(defs, name)->0, inside, defs, known, (depth - 1) as nat);
            }
        },
        _ => {},
    }
}

/// What may stand inside a repetition, each of patterns, has its attributes in no group and
/// no interleave.
proof fn lemma_all_apart(
    s: Seq<PatternModel>,
    inside: Inside,
    defs: Defs,
    known: Passed,
    depth: nat,
)
    requires
        closed(defs, known, known),
        all_obey(s, inside, defs, known),
        inside.one_or_more,
    ensures
        all_attributes_apart(s, defs, depth),
    decreases depth, s,
{
    assert forall|i: int| 0 <= i < s.len() implies attributes_apart(
        #[trigger] s[i],
        defs,
        depth,
    ) by {
        assert(obeys(s[i], inside, defs, known));
        lemma_apart(s[i], inside, defs, known, depth);
    }
}

/// What may stand somewhere and keeps to a shape is of that shape.
proof fn lemma_shaped(
    p: PatternModel,
    inside: Inside,
    shape: Shape,
    defs: Defs,
    known: Passed,
    depth: nat,
)
    requires
        closed(defs, known, known),
        obeys(p, inside, defs, known),
        keeps_to_within(p, shape, defs, depth),
    ensures
        shaped_within(p, shape, defs, depth),
    decreases depth, p,
{
    match p {
        PatternModel::Group(values) => {
            lemma_all_shaped(values, own(p, inside), shape, defs, known, depth);
        },
        PatternModel::Interleave(values) => {
            lemma_all_shaped(values, own(p, inside), shape, defs, known, depth);
        },
        PatternModel::Choice(values) => {
            lemma_all_shaped(values, own(p, inside), shape, defs, known, depth);
        },
        PatternModel::OneOrMore(values) => {
            lemma_all_shaped(values, own(p, inside), shape, defs, known, depth);
            lemma_all_apart(values, own(p, inside), defs, known, depth);
        },
        PatternModel::Ref(name) => {
            if depth > 0 && has_key(defs, name) {
                assert(known.contains((name, inside)));
                lemma_shaped(
                    lookup(defs, name)->0,
                    inside,
                    shape,
                    defs,
                    known,
                    (depth - 1) as nat,
                );
            }
        },
        _ => {},
    }
}

/// What may stand somewhere and keeps to a shape, each of patterns, is of that shape.
proof fn lemma_all_shaped(
    s: Seq<PatternModel>,
    inside: Inside,
    shape: Shape,
    defs: Defs,
    known: Passed,
    depth: nat,
)
    requires
        closed(defs, known, known),
        all_obey(s, inside, defs, known),
        all_keep_to_within(s, shape, defs, depth),
    ensures
        all_shaped_within(s, shape, defs, depth),
    decreases depth, s,
{
    assert forall|i: int| 0 <= i < s.len() implies shaped_within(
        #[trigger] s[i],
        shape,
        defs,
        depth,
    ) by {
        assert(obeys(s[i], inside, defs, known));
        assert(keeps_to_within(s[i], shape, defs, depth));
        lemma_shaped(s[i], inside, shape, defs, known, depth);
    }
}

// ---------------------------------------------------------------------
// References come to an end
// ---------------------------------------------------------------------

/// Whether the exceptions of datatypes in a pattern hold exceptions of datatypes no deeper
/// than a number of times.
pub open spec fn nested(p: PatternModel, k: nat) -> bool
    decreases p,
{
    match p {
        PatternModel::Data { datatype, datatype_library, params, except, context } => k > 0
            && all_nested(except, (k - 1) as nat),
        _ => match operands(p) {
            Some(values) => {
                proof {
                    lemma_operands(p);
                }
                all_nested(values, k)
            },
            None => true,
        },
    }
}

/// Whether the exceptions of datatypes in patterns hold exceptions no deeper than a number of
/// times.
pub open spec fn all_nested(s: Seq<PatternModel>, k: nat) -> bool
    decreases s,
{
    forall|i: int| 0 <= i < s.len() ==> nested(#[trigger] s[i], k)
}

/// The exceptions of a datatype refer to nothing, so they come to an end.
proof fn lemma_exception_grounded(p: PatternModel, defs: Defs, k: nat, depth: nat)
    requires
        except_problem(p) is None,
        nested(p, k),
        k <= depth,
    ensures
        grounded(p, defs, depth),
    decreases p,
{
    match p {
        PatternModel::Data { datatype, datatype_library, params, except, context } => {
            assert forall|i: int| 0 <= i < except.len() implies grounded(
                #[trigger] except[i],
                defs,
                (depth - 1) as nat,
            ) by {
                lemma_each_excepts(except, except.len(), i);
                assert(nested(except[i], (k - 1) as nat));
                lemma_exception_grounded(except[i], defs, (k - 1) as nat, (depth - 1) as nat);
            }
            assert(all_grounded(except, defs, (depth - 1) as nat));
        },
        PatternModel::Choice(values) => {
            assert forall|i: int| 0 <= i < values.len() implies grounded(
                #[trigger] values[i],
                defs,
                depth,
            ) by {
                lemma_each_excepts(values, values.len(), i);
                assert(nested(values[i], k));
                lemma_exception_grounded(values[i], defs, k, depth);
            }
            assert(all_grounded(values, defs, depth));
        },
        _ => {},
    }
}

/// The depth that a pattern needs: one step for each rank below, for each exception in an
/// exception, for a list, and one to spare.
spec fn needed(inside: Inside, r: nat, k: nat) -> nat {
    r + k + (if inside.list {
        1nat
    } else {
        2nat
    })
}

/// What may stand somewhere and refers to ranked names comes to an end.
proof fn lemma_ends(
    p: PatternModel,
    inside: Inside,
    defs: Defs,
    known: Passed,
    names: Names,
    rank: spec_fn(Text) -> nat,
    r: nat,
    k: nat,
    depth: nat,
)
    requires
        closed(defs, known, known),
        obeys(p, inside, defs, known),
        in_form(p, false),
        defs_in_form(defs),
        well_ranked(defs, names, rank),
        refers_below(p, defs, names, rank, r),
        nested(p, k),
        forall|i: int| 0 <= i < defs.len() ==> nested((#[trigger] defs[i]).1, k),
        needed(inside, r, k) <= depth,
    ensures
        grounded(p, defs, depth),
    decreases depth, p,
{
    match p {
        PatternModel::Ref(name) => {
            if has_key(defs, name) {
                let target = lookup(defs, name)->0;
                let at = lemma_lookup_index(defs, name);
                assert(in_form(defs[at].1, false));
                assert(nested(defs[at].1, k));
                assert(ref_edges(p)[0] == name);
                assert(ref_edges(p).contains(name));
                assert(known.contains((name, inside)));
                lemma_target_below(name, defs, names, rank);
                lemma_ends(
                    target,
                    inside,
                    defs,
                    known,
                    names,
                    rank,
                    rank(name),
                    k,
                    (depth - 1) as nat,
                );
            }
        },
        PatternModel::Data { datatype, datatype_library, params, except, context } => {
            assert forall|i: int| 0 <= i < except.len() implies grounded(
                #[trigger] except[i],
                defs,
                (depth - 1) as nat,
            ) by {
                lemma_each_excepts(except, except.len(), i);
                assert(nested(except[i], (k - 1) as nat));
                lemma_exception_grounded(except[i], defs, (k - 1) as nat, (depth - 1) as nat);
            }
            assert(all_grounded(except, defs, (depth - 1) as nat));
        },
        PatternModel::List(values) => {
            lemma_all_end(p, values, inside, defs, known, names, rank, r, k, (depth - 1) as nat);
        },
        PatternModel::Attribute { name, body, context } => {
            lemma_all_end(p, body, inside, defs, known, names, rank, r, k, depth);
        },
        PatternModel::Group(values) => {
            lemma_all_end(p, values, inside, defs, known, names, rank, r, k, depth);
        },
        PatternModel::Interleave(values) => {
            lemma_all_end(p, values, inside, defs, known, names, rank, r, k, depth);
        },
        PatternModel::Choice(values) => {
            lemma_all_end(p, values, inside, defs, known, names, rank, r, k, depth);
        },
        PatternModel::OneOrMore(values) => {
            lemma_all_end(p, values, inside, defs, known, names, rank, r, k, depth);
        },
        _ => {},
    }
}

/// The operands of what may stand somewhere and refers to ranked names come to an end.
proof fn lemma_all_end(
    p: PatternModel,
    s: Seq<PatternModel>,
    inside: Inside,
    defs: Defs,
    known: Passed,
    names: Names,
    rank: spec_fn(Text) -> nat,
    r: nat,
    k: nat,
    depth: nat,
)
    requires
        closed(defs, known, known),
        all_obey(s, own(p, inside), defs, known),
        all_in_form(s, false),
        defs_in_form(defs),
        well_ranked(defs, names, rank),
        refers_below(p, defs, names, rank, r),
        ref_edges(p) == all_ref_edges(s, s.len()),
        all_nested(s, k),
        forall|i: int| 0 <= i < defs.len() ==> nested((#[trigger] defs[i]).1, k),
        needed(own(p, inside), r, k) <= depth,
    ensures
        all_grounded(s, defs, depth),
    decreases depth, s,
{
    assert forall|i: int| 0 <= i < s.len() implies grounded(#[trigger] s[i], defs, depth) by {
        assert(obeys(s[i], own(p, inside), defs, known));
        assert(in_form(s[i], false));
        assert(nested(s[i], k));
        lemma_operand_below(p, s, i, defs, names, rank, r);
        lemma_ends(s[i], own(p, inside), defs, known, names, rank, r, k, depth);
    }
}

/// What a ranked name stands for refers to names of a lower rank.
proof fn lemma_target_below(name: Text, defs: Defs, names: Names, rank: spec_fn(Text) -> nat)
    requires
        well_ranked(defs, names, rank),
        has_key(names, name),
        has_key(defs, name),
    ensures
        refers_below(lookup(defs, name)->0, defs, names, rank, rank(name)),
{
    let target = lookup(defs, name)->0;
    assert forall|b: Text| #[trigger]
        ref_edges(target).contains(b) && has_key(defs, b) implies has_key(names, b) && rank(b)
        < rank(name) by {
        assert(edge(defs, name, b));
    }
}

// ---------------------------------------------------------------------
// Data stands apart
// ---------------------------------------------------------------------

/// What is held already stays held.
proof fn lemma_held_more(
    p: PatternModel,
    defs: Defs,
    visiting: Seq<Text>,
    out: Holdings,
    depth: nat,
)
    ensures
        out.string_capable ==> held(p, defs, visiting, out, depth).string_capable,
        out.child_capable ==> held(p, defs, visiting, out, depth).child_capable,
    decreases depth, p, 0nat,
{
    match p {
        PatternModel::Ref(name) => {
            if has_key(defs, name) && !visiting.contains(name) && depth > 0 {
                lemma_held_more(
                    lookup(defs, name)->0,
                    defs,
                    visiting.push(name),
                    out,
                    (depth - 1) as nat,
                );
            }
        },
        PatternModel::Attribute { name, body, context } => {},
        PatternModel::Element { name, body, context } => {},
        PatternModel::List(_) => {},
        PatternModel::Data { datatype, datatype_library, params, except, context } => {},
        _ => {
            if operands(p) is Some {
                let values = operands(p)->0;
                lemma_operands(p);
                lemma_all_held_more(values, defs, visiting, out, depth, values.len());
            }
        },
    }
}

/// What is held already stays held, with patterns more.
proof fn lemma_all_held_more(
    s: Seq<PatternModel>,
    defs: Defs,
    visiting: Seq<Text>,
    out: Holdings,
    depth: nat,
    n: nat,
)
    ensures
        out.string_capable ==> held_all(s, defs, visiting, out, depth, n).string_capable,
        out.child_capable ==> held_all(s, defs, visiting, out, depth, n).child_capable,
    decreases depth, s, n,
{
    if n > 0 && n <= s.len() {
        let m = (n - 1) as nat;
        lemma_all_held_more(s, defs, visiting, out, depth, m);
        lemma_held_more(
            s[n - 1],
            defs,
            visiting,
            held_all(s, defs, visiting, out, depth, m),
            depth,
        );
    }
}

/// What can match no string is settled, and what can match no child holds nothing but
/// attributes. No reference leads to a name that is being followed, since references fall.
proof fn lemma_held(
    p: PatternModel,
    defs: Defs,
    names: Names,
    rank: spec_fn(Text) -> nat,
    r: nat,
    visiting: Seq<Text>,
    out: Holdings,
    depth: nat,
    d: nat,
)
    requires
        well_ranked(defs, names, rank),
        refers_below(p, defs, names, rank, r),
        forall|x: Text| #[trigger] visiting.contains(x) ==> rank(x) >= r,
        deep_enough(defs, visiting, depth),
        in_form(p, false),
        defs_in_form(defs),
    ensures
        !held(p, defs, visiting, out, depth).string_capable ==> settled_within(p, defs, d),
        !held(p, defs, visiting, out, depth).child_capable ==> keeps_to_within(
            p,
            childless(),
            defs,
            d,
        ),
    decreases d, p, 0nat,
{
    match p {
        PatternModel::Ref(name) => {
            if d > 0 && has_key(defs, name) {
                let target = lookup(defs, name)->0;
                let k = lemma_lookup_index(defs, name);
                assert(in_form(defs[k].1, false));
                assert(ref_edges(p)[0] == name);
                assert(ref_edges(p).contains(name));
                assert(!visiting.contains(name));
                lemma_visiting_count(visiting, defs);
                let inner = visiting.push(name);
                assert forall|x: Text| #[trigger] inner.contains(x) implies has_key(defs, x)
                    && rank(x) >= rank(name) by {
                    if x != name {
                        let j = choose|j: int| 0 <= j < inner.len() && inner[j] == x;
                        assert(visiting[j] == x);
                        assert(visiting.contains(x));
                    }
                }
                lemma_target_below(name, defs, names, rank);
                lemma_held(
                    target,
                    defs,
                    names,
                    rank,
                    rank(name),
                    inner,
                    out,
                    (depth - 1) as nat,
                    (d - 1) as nat,
                );
            }
        },
        PatternModel::Group(values) => {
            lemma_all_held(p, values, defs, names, rank, r, visiting, out, depth, d, values.len());
        },
        PatternModel::Interleave(values) => {
            lemma_all_held(p, values, defs, names, rank, r, visiting, out, depth, d, values.len());
        },
        PatternModel::Choice(values) => {
            lemma_all_held(p, values, defs, names, rank, r, visiting, out, depth, d, values.len());
        },
        PatternModel::OneOrMore(values) => {
            lemma_all_held(p, values, defs, names, rank, r, visiting, out, depth, d, values.len());
        },
        _ => {},
    }
}

/// Where operands together can match no string each of them is settled, and where they can
/// match no child none holds anything but attributes.
proof fn lemma_all_held(
    p: PatternModel,
    s: Seq<PatternModel>,
    defs: Defs,
    names: Names,
    rank: spec_fn(Text) -> nat,
    r: nat,
    visiting: Seq<Text>,
    out: Holdings,
    depth: nat,
    d: nat,
    n: nat,
)
    requires
        well_ranked(defs, names, rank),
        refers_below(p, defs, names, rank, r),
        ref_edges(p) == all_ref_edges(s, s.len()),
        forall|x: Text| #[trigger] visiting.contains(x) ==> rank(x) >= r,
        deep_enough(defs, visiting, depth),
        all_in_form(s, false),
        defs_in_form(defs),
        n <= s.len(),
    ensures
        !held_all(s, defs, visiting, out, depth, n).string_capable ==> forall|i: int|
            0 <= i < n ==> settled_within(#[trigger] s[i], defs, d),
        !held_all(s, defs, visiting, out, depth, n).child_capable ==> forall|i: int|
            0 <= i < n ==> keeps_to_within(#[trigger] s[i], childless(), defs, d),
        n == s.len() && !held_all(s, defs, visiting, out, depth, n).string_capable
            ==> all_settled_within(s, defs, d) && choices_settled_within(s, defs, d),
        n == s.len() && !held_all(s, defs, visiting, out, depth, n).child_capable
            ==> all_keep_to_within(s, childless(), defs, d),
    decreases d, s, n,
{
    if n > 0 {
        let m = (n - 1) as nat;
        let before = held_all(s, defs, visiting, out, depth, m);
        lemma_all_held(p, s, defs, names, rank, r, visiting, out, depth, d, m);
        lemma_held_more(s[n - 1], defs, visiting, before, depth);
        lemma_operand_below(p, s, n - 1, defs, names, rank, r);
        assert(in_form(s[n - 1], false));
        lemma_held(s[n - 1], defs, names, rank, r, visiting, before, depth, d);
    }
}

/// Of two operands of a group or an interleave without a complaint, the one is settled or the
/// other holds nothing but attributes.
proof fn lemma_row_apart(
    p: PatternModel,
    s: Seq<PatternModel>,
    inside: Inside,
    defs: Defs,
    known: Passed,
    names: Names,
    rank: spec_fn(Text) -> nat,
    r: nat,
    depth: nat,
    d: nat,
)
    requires
        closed(defs, known, known),
        all_obey(s, inside, defs, known),
        well_ranked(defs, names, rank),
        refers_below(p, defs, names, rank, r),
        ref_edges(p) == all_ref_edges(s, s.len()),
        all_in_form(s, false),
        defs_in_form(defs),
        defs.len() < depth,
        rows_problem(holdings_of(s, defs, depth), p is Interleave, s.len()) is None,
    ensures
        row_apart_within(s, defs, d),
{
    let h = holdings_of(s, defs, depth);
    let none = Seq::<Text>::empty();
    assert forall|i: int, j: int|
        #![trigger s[i], s[j]]
        0 <= i < s.len() && 0 <= j < s.len() && i != j implies settled_within(
        s[i],
        defs,
        d,
    ) || shaped_within(s[j], childless(), defs, d) by {
        if i < j {
            lemma_row(h, p is Interleave, s.len(), i);
            lemma_pair(h, p is Interleave, s.len(), i, j);
        } else {
            lemma_row(h, p is Interleave, s.len(), j);
            lemma_pair(h, p is Interleave, s.len(), j, i);
        }
        lemma_operand_below(p, s, i, defs, names, rank, r);
        lemma_operand_below(p, s, j, defs, names, rank, r);
        assert(in_form(s[i], false) && in_form(s[j], false));
        assert(obeys(s[j], inside, defs, known));
        lemma_held(s[i], defs, names, rank, r, none, nothing_held(), depth, d);
        lemma_held(s[j], defs, names, rank, r, none, nothing_held(), depth, d);
        assert(h[i] == held(s[i], defs, none, nothing_held(), depth));
        assert(h[j] == held(s[j], defs, none, nothing_held(), depth));
        if h[i].string_capable {
            lemma_shaped(s[j], inside, childless(), defs, known, d);
        }
    }
}

/// What there is no complaint about has its data apart.
proof fn lemma_data_apart(
    p: PatternModel,
    inside: Inside,
    defs: Defs,
    known: Passed,
    names: Names,
    rank: spec_fn(Text) -> nat,
    r: nat,
    depth: nat,
    d: nat,
)
    requires
        closed(defs, known, known),
        obeys(p, inside, defs, known),
        well_ranked(defs, names, rank),
        refers_below(p, defs, names, rank, r),
        in_form(p, false),
        defs_in_form(defs),
        defs.len() < depth,
        groups_problem(p, defs, depth) is None,
        defs_groups_problem(defs, depth, defs.len()) is None,
    ensures
        data_apart_within(p, defs, d),
    decreases d, p,
{
    match p {
        PatternModel::Group(values) => {
            lemma_all_data_apart(p, values, inside, defs, known, names, rank, r, depth, d);
            lemma_row_apart(p, values, own(p, inside), defs, known, names, rank, r, depth, d);
        },
        PatternModel::Interleave(values) => {
            lemma_all_data_apart(p, values, inside, defs, known, names, rank, r, depth, d);
            lemma_row_apart(p, values, own(p, inside), defs, known, names, rank, r, depth, d);
        },
        PatternModel::Choice(values) => {
            lemma_all_data_apart(p, values, inside, defs, known, names, rank, r, depth, d);
        },
        PatternModel::OneOrMore(values) => {
            lemma_all_data_apart(p, values, inside, defs, known, names, rank, r, depth, d);
        },
        PatternModel::Ref(name) => {
            if d > 0 && has_key(defs, name) {
                let k = lemma_lookup_index(defs, name);
                assert(in_form(defs[k].1, false));
                lemma_each_name_grouped(defs, depth, defs.len(), k);
                assert(ref_edges(p)[0] == name);
                assert(ref_edges(p).contains(name));
                assert(known.contains((name, inside)));
                lemma_target_below(name, defs, names, rank);
                lemma_data_apart(
                    lookup(defs, name)->0,
                    inside,
                    defs,
                    known,
                    names,
                    rank,
                    rank(name),
                    depth,
                    (d - 1) as nat,
                );
            }
        },
        _ => {},
    }
}

/// Operands that there is no complaint about have their data apart.
proof fn lemma_all_data_apart(
    p: PatternModel,
    s: Seq<PatternModel>,
    inside: Inside,
    defs: Defs,
    known: Passed,
    names: Names,
    rank: spec_fn(Text) -> nat,
    r: nat,
    depth: nat,
    d: nat,
)
    requires
        closed(defs, known, known),
        all_obey(s, own(p, inside), defs, known),
        well_ranked(defs, names, rank),
        refers_below(p, defs, names, rank, r),
        ref_edges(p) == all_ref_edges(s, s.len()),
        all_in_form(s, false),
        defs_in_form(defs),
        defs.len() < depth,
        all_groups_problem(s, defs, depth, s.len()) is None,
        defs_groups_problem(defs, depth, defs.len()) is None,
    ensures
        all_data_apart_within(s, defs, d),
    decreases d, s,
{
    assert forall|i: int| 0 <= i < s.len() implies data_apart_within(#[trigger] s[i], defs, d) by {
        assert(obeys(s[i], own(p, inside), defs, known));
        assert(in_form(s[i], false));
        lemma_each_grouped(s, defs, depth, s.len(), i);
        lemma_operand_below(p, s, i, defs, names, rank, r);
        lemma_data_apart(s[i], own(p, inside), defs, known, names, rank, r, depth, d);
    }
}

// ---------------------------------------------------------------------
// Content models
// ---------------------------------------------------------------------

/// Whether a pattern occurs in what a schema comes to: in its start, or in a named pattern
/// that the start reaches.
pub open spec fn used_in(schema: SchemaModel, q: PatternModel) -> bool {
    occurs(schema.start, q) || exists|name: Text|
        has_key(schema.definitions, name) && #[trigger] chained(
            schema.start,
            schema.definitions,
            name,
        ) && occurs(lookup(schema.definitions, name)->0, q)
}

/// Whether the exceptions of datatypes in a schema hold exceptions of datatypes no deeper
/// than a number of times.
pub open spec fn nested_in(schema: SchemaModel, k: nat) -> bool {
    nested(schema.start, k) && forall|i: int|
        0 <= i < schema.definitions.len() ==> nested((#[trigger] schema.definitions[i]).1, k)
}

/// No element stands inside a list.
proof fn lemma_no_element_in_list(
    p: PatternModel,
    q: PatternModel,
    inside: Inside,
    defs: Defs,
    known: Passed,
)
    requires
        obeys(p, inside, defs, known),
        inside.list,
        q is Element,
    ensures
        !occurs(p, q),
    decreases p,
{
    if occurs(p, q) && p != q {
        let values = operands(p)->0;
        lemma_operands(p);
        assert(some_occurs(values, q));
        let i = choose|i: int| 0 <= i < values.len() && occurs(#[trigger] values[i], q);
        if p is Data {
            lemma_each_excepts(values, values.len(), i);
            lemma_excepts(values[i], q);
        } else {
            assert(obeys(values[i], own(p, inside), defs, known));
            lemma_no_element_in_list(values[i], q, own(p, inside), defs, known);
        }
    }
}

/// An element pattern in what may stand somewhere may stand where it does, there is no
/// complaint about it where there is none about the whole, and it refers to what the whole
/// refers to.
proof fn lemma_element_within(
    p: PatternModel,
    q: PatternModel,
    inside: Inside,
    defs: Defs,
    known: Passed,
    depth: nat,
    k: nat,
) -> (flags: Inside)
    requires
        obeys(p, inside, defs, known),
        occurs(p, q),
        q is Element,
        in_form(p, false),
        groups_problem(p, defs, depth) is None,
        nested(p, k),
    ensures
        obeys(q, flags, defs, known),
        in_form(q, false),
        groups_problem(q, defs, depth) is None,
        nested(q, k),
        forall|m: Text| #[trigger] mentions(q, m) ==> mentions(p, m),
    decreases p,
{
    if p == q {
        inside
    } else {
        let values = operands(p)->0;
        lemma_operands(p);
        assert(some_occurs(values, q));
        let i = choose|i: int| 0 <= i < values.len() && occurs(#[trigger] values[i], q);
        if p is Data {
            lemma_each_excepts(values, values.len(), i);
            lemma_excepts(values[i], q);
            inside
        } else {
            assert(obeys(values[i], own(p, inside), defs, known));
            if p is List {
                lemma_no_element_in_list(values[i], q, own(p, inside), defs, known);
            }
            assert(in_form(values[i], false));
            assert(nested(values[i], k));
            lemma_each_grouped(values, defs, depth, values.len(), i);
            let flags = lemma_element_within(
                values[i],
                q,
                own(p, inside),
                defs,
                known,
                depth,
                k,
            );
            assert forall|m: Text| #[trigger] mentions(q, m) implies mentions(p, m) by {
                assert(mentions(values[i], m));
                assert(some_mentions(values, m));
            }
            flags
        }
    }
}

/// What may stand somewhere refers only to names that are known.
proof fn lemma_obeying_covered(p: PatternModel, inside: Inside, defs: Defs, known: Passed, m: Text)
    requires
        obeys(p, inside, defs, known),
        mentions(p, m),
        has_key(defs, m),
    ensures
        named(known, m),
    decreases p,
{
    if !(p is Ref) {
        let values = operands(p)->0;
        lemma_operands(p);
        assert(some_mentions(values, m));
        let i = choose|i: int| 0 <= i < values.len() && mentions(#[trigger] values[i], m);
        if p is Data {
            lemma_each_excepts(values, values.len(), i);
            lemma_excepts_mention_nothing(values[i], m);
        } else {
            assert(obeys(values[i], own(p, inside), defs, known));
            lemma_obeying_covered(values[i], own(p, inside), defs, known, m);
        }
    }
}

/// Every name at the end of a chain of mentions is known.
proof fn lemma_chain_known(
    start: PatternModel,
    inside: Inside,
    defs: Defs,
    known: Passed,
    route: Seq<Text>,
    i: int,
)
    requires
        closed(defs, known, known),
        obeys(start, inside, defs, known),
        chain(start, defs, route),
        0 <= i < route.len(),
    ensures
        named(known, route[i]),
    decreases i,
{
    assert(has_key(defs, route[i]));
    if i == 0 {
        lemma_obeying_covered(start, inside, defs, known, route[0]);
    } else {
        let before = route[i - 1];
        lemma_chain_known(start, inside, defs, known, route, i - 1);
        let flags = choose|flags: Inside| #[trigger] known.contains((before, flags));
        assert(mentions(lookup(defs, before)->0, route[i - 1 + 1]));
        lemma_obeying_covered(lookup(defs, before)->0, flags, defs, known, route[i]);
    }
}

/// What is known of an element pattern that is used, from what has passed the check.
proof fn lemma_used(schema: SchemaModel, q: PatternModel, depth: nat, k: nat) -> (r: (
    Passed,
    Inside,
))
    requires
        schema_problem(schema, depth) is None,
        16 * schema.definitions.len() < depth,
        used_in(schema, q),
        q is Element,
        in_form(schema.start, false),
        defs_in_form(schema.definitions),
        nested_in(schema, k),
    ensures
        closed(schema.definitions, r.0, r.0),
        obeys(q, r.1, schema.definitions, r.0),
        in_form(q, false),
        groups_problem(q, schema.definitions, depth) is None,
        nested(q, k),
        forall|m: Text|
            has_key(schema.definitions, m) && #[trigger] mentions(q, m) ==> has_key(
                reached(schema.start, schema.definitions, Seq::empty(), depth),
                m,
            ),
{
    let start = schema.start;
    let defs = schema.definitions;
    let names = reached(start, defs, Seq::empty(), depth);
    let none = Seq::<(Text, Inside)>::empty();
    lemma_restrict_obeys(start, inside_nothing(), defs, none, none, depth);
    let known = restrict(start, inside_nothing(), defs, none, none, depth)->Ok_0;
    assert(known + none =~= known);
    assert(closed(defs, known, known)) by {
        assert forall|x: (Text, Inside)| #[trigger] known.contains(x) implies has_key(defs, x.0)
            && obeys(lookup(defs, x.0)->0, x.1, defs, known) by {
            assert(!none.contains(x));
        }
    }
    law_reached_names_are_closed(start, defs, depth);
    if occurs(start, q) {
        let flags = lemma_element_within(start, q, inside_nothing(), defs, known, depth, k);
        (known, flags)
    } else {
        let name = choose|name: Text|
            has_key(defs, name) && #[trigger] chained(start, defs, name) && occurs(
                lookup(defs, name)->0,
                q,
            );
        let route = choose|route: Seq<Text>| #[trigger]
            chain(start, defs, route) && route.last() == name;
        lemma_chain_known(start, inside_nothing(), defs, known, route, route.len() - 1);
        let outer = choose|outer: Inside| #[trigger] known.contains((name, outer));
        let at = lemma_lookup_index(defs, name);
        assert(in_form(defs[at].1, false));
        assert(nested(defs[at].1, k));
        lemma_each_name_grouped(defs, depth, defs.len(), at);
        let flags = lemma_element_within(lookup(defs, name)->0, q, outer, defs, known, depth, k);
        law_reached_names_are_chained(start, defs, depth, name);
        (known, flags)
    }
}

/// The content model of every element pattern that an accepted schema comes to keeps to what
/// validation rests on: it is of the forms of a composed schema, its references come to an
/// end, it is of every shape that allows what it holds, and it is orderly. Element patterns of
/// named patterns that the start never comes to are left out, since recursion is no error
/// there. The named patterns, and exceptions of datatypes inside exceptions, stay below the
/// greatest depth.
pub proof fn law_accepted_contents_are_orderly(
    root: RootModel,
    log: Feed,
    q: PatternModel,
    shape: Shape,
    k: nat,
)
    requires
        compiled(root, log) is Ok,
        used_in(compiled(root, log)->Ok_0, q),
        q is Element,
        nested_in(compiled(root, log)->Ok_0, k),
        16 * compiled(root, log)->Ok_0.definitions.len() + k + 1 < MAX_DEPTH,
    ensures
        ({
            let defs = compiled(root, log)->Ok_0.definitions;
            let content = q->Element_body[0];
            &&& q->Element_body.len() == 1
            &&& in_form(content, false)
            &&& defs_in_form(defs)
            &&& grounded(content, defs, MAX_DEPTH as nat)
            &&& orderly(content, anything(), defs)
            &&& keeps_to(content, shape, defs) ==> orderly(content, shape, defs)
        }),
{
    let schema = compiled(root, log)->Ok_0;
    let start = schema.start;
    let defs = schema.definitions;
    let depth = MAX_DEPTH as nat;
    law_composed_schema_is_in_form(root, log);
    let (known, flags) = lemma_used(schema, q, depth, k);
    let body = q->Element_body;
    let content = body[0];
    assert(operands(q) == Some(body));
    assert(in_form(content, false));
    assert(obeys(content, inside_nothing(), defs, known));
    assert(nested(content, k));
    lemma_each_grouped(body, defs, depth, body.len(), 0);
    assert forall|m: Text| has_key(defs, m) && #[trigger] mentions(content, m) implies has_key(
        reached(start, defs, Seq::empty(), depth),
        m,
    ) by {
        assert(some_mentions(body, m));
        assert(mentions(q, m));
    }
    let names = reached(start, defs, Seq::empty(), depth);
    let rank = lemma_well_ranked(start, content, defs, depth);
    let nowhere = inside_nothing();
    lemma_ends(content, nowhere, defs, known, names, rank, defs.len(), k, depth);
    assert forall|d: nat| #[trigger] shaped_within(content, anything(), defs, d) by {
        lemma_keeps_to_anything(content, defs, d);
        lemma_shaped(content, nowhere, anything(), defs, known, d);
    }
    assert forall|d: nat| #[trigger] data_apart_within(content, defs, d) by {
        lemma_data_apart(content, nowhere, defs, known, names, rank, defs.len(), depth, d);
    }
    if keeps_to(content, shape, defs) {
        assert forall|d: nat| #[trigger] shaped_within(content, shape, defs, d) by {
            assert(keeps_to_within(content, shape, defs, d));
            lemma_shaped(content, nowhere, shape, defs, known, d);
        }
    }
}

/// What is come to from a pattern through choices and references occurs in it, or in a named
/// pattern at the end of a chain of mentions.
proof fn lemma_opening_used(p: PatternModel, q: PatternModel, defs: Defs, d: nat)
    requires
        opens_with(p, q, defs, d),
    ensures
        occurs(p, q) || exists|name: Text|
            has_key(defs, name) && #[trigger] chained(p, defs, name) && occurs(
                lookup(defs, name)->0,
                q,
            ),
    decreases d, p,
{
    if p != q {
        match p {
            PatternModel::Choice(values) => {
                assert(some_open_with(values, q, defs, d));
                let i = choose|i: int|
                    0 <= i < values.len() && opens_with(#[trigger] values[i], q, defs, d);
                lemma_opening_used(values[i], q, defs, d);
                if occurs(values[i], q) {
                    assert(some_occurs(values, q));
                } else {
                    let name = choose|name: Text|
                        has_key(defs, name) && #[trigger] chained(values[i], defs, name) && occurs(
                            lookup(defs, name)->0,
                            q,
                        );
                    let route = choose|route: Seq<Text>| #[trigger]
                        chain(values[i], defs, route) && route.last() == name;
                    assert(some_mentions(values, route[0]));
                    assert(chain(p, defs, route));
                    assert(chained(p, defs, name));
                }
            },
            PatternModel::Ref(first) => {
                let target = lookup(defs, first)->0;
                lemma_opening_used(target, q, defs, (d - 1) as nat);
                if occurs(target, q) {
                    assert(chain(p, defs, seq![first]));
                    assert(seq![first].last() == first);
                    assert(chained(p, defs, first));
                } else {
                    let name = choose|name: Text|
                        has_key(defs, name) && #[trigger] chained(target, defs, name) && occurs(
                            lookup(defs, name)->0,
                            q,
                        );
                    let rest = choose|rest: Seq<Text>| #[trigger]
                        chain(target, defs, rest) && rest.last() == name;
                    lemma_longer_chain(first, defs, rest);
                    assert((seq![first] + rest).last() == name);
                    assert(chained(p, defs, name));
                }
            },
            _ => {},
        }
    }
}

/// The element patterns that a schema starts with are among those that it comes to.
pub proof fn law_start_elements_are_used(schema: SchemaModel, q: PatternModel, d: nat)
    requires
        opens_with(schema.start, q, schema.definitions, d),
    ensures
        used_in(schema, q),
{
    lemma_opening_used(schema.start, q, schema.definitions, d);
}

/// In an accepted schema, where no text among its children is blank, an element is what the
/// content model of an element pattern that the schema comes to describes, exactly where the
/// content model describes its attributes, in whatever order, together with its children, in
/// their order.
pub proof fn law_accepted_contents_describe_elements(
    root: RootModel,
    log: Feed,
    q: PatternModel,
    k: nat,
    element: ElementModel,
    registry: RegistryModel,
)
    requires
        compiled(root, log) is Ok,
        used_in(compiled(root, log)->Ok_0, q),
        q is Element,
        nested_in(compiled(root, log)->Ok_0, k),
        16 * compiled(root, log)->Ok_0.definitions.len() + k + 1 < MAX_DEPTH,
        no_blank_text(element.children),
    ensures
        ({
            let defs = compiled(root, log)->Ok_0.definitions;
            let content = q->Element_body[0];
            let children = element.children;
            is_valid(content, element, defs, registry) <==> meets(
                content,
                having(
                    element,
                    sequence(children, children.len(), element.bindings, defs, registry),
                ),
                setting(element, defs, registry),
                MAX_DEPTH as nat,
            )
        }),
{
    let defs = compiled(root, log)->Ok_0.definitions;
    let content = q->Element_body[0];
    law_accepted_contents_are_orderly(root, log, q, anything(), k);
    law_valid_content_is_accepted_content(content, anything(), element, defs, registry);
}

/// Whether a pattern describes an element: by its name, and by its attributes, in whatever
/// order, together with its children, in their order.
pub open spec fn portrays(
    q: PatternModel,
    element: ElementModel,
    defs: Defs,
    registry: RegistryModel,
) -> bool {
    match q {
        PatternModel::Element { name, body, context } => holds_name(
            name,
            element.name.namespace,
            element.name.local,
        ) && body.len() > 0 && meets(
            body[0],
            having(
                element,
                sequence(
                    element.children,
                    element.children.len(),
                    element.bindings,
                    defs,
                    registry,
                ),
            ),
            setting(element, defs, registry),
            MAX_DEPTH as nat,
        ),
        _ => false,
    }
}

/// No problem is found with a document whose root has no blank text exactly where some element
/// pattern that the start of the schema comes to, through choices and references, describes
/// its root by name, attributes and children.
pub proof fn law_accepted_schemas_describe_documents(
    root: RootModel,
    log: Feed,
    k: nat,
    document: ElementModel,
    registry: RegistryModel,
)
    requires
        compiled(root, log) is Ok,
        nested_in(compiled(root, log)->Ok_0, k),
        16 * compiled(root, log)->Ok_0.definitions.len() + k + 1 < MAX_DEPTH,
        no_blank_text(document.children),
    ensures
        ({
            let schema = compiled(root, log)->Ok_0;
            document_errors(schema, registry, document).len() == 0 <==> exists|q: PatternModel|
                #[trigger] opens_with(
                    schema.start,
                    q,
                    schema.definitions,
                    MAX_DEPTH as nat,
                ) && portrays(q, document, schema.definitions, registry)
        }),
{
    let schema = compiled(root, log)->Ok_0;
    let defs = schema.definitions;
    let depth = MAX_DEPTH as nat;
    law_valid_documents_match_the_schema(root, log, registry, document);
    assert forall|q: PatternModel| #[trigger]
        opens_with(schema.start, q, defs, depth) implies describes(q, document, defs, registry)
        == portrays(q, document, defs, registry) by {
        if q is Element {
            law_start_elements_are_used(schema, q, depth);
            law_accepted_contents_describe_elements(root, log, q, k, document, registry);
        }
    }
}

} // verus!
