//! Where patterns may stand, and what may stand beside what: nothing is refused but for a
//! clash, and what an operand holds is what stands in it.
use vstd::prelude::*;

use crate::compose::operands;
use crate::derivative::Defs;
use crate::grammar::{NameModel, PatternModel};
use crate::name_class::{infinite_names, overlap};
use crate::placement::{some_stands, stands};
use crate::restrictions::{
    all_groups_problem, except_problem, except_problems, groups_problem, held, held_all,
    holdings_of, inside_nothing, nothing_held, operands_problem, pair_problem, restrict,
    restrict_all, row_problem, rows_problem, start_problem, start_problems, Holdings, Inside,
    Passed,
};
use crate::text::Text;

verus! {

// ---------------------------------------------------------------------
// Places
// ---------------------------------------------------------------------

/// The patterns inside a pattern.
pub open spec fn insides(p: PatternModel) -> Seq<PatternModel> {
    match p {
        PatternModel::Element { name, body, context } => body,
        PatternModel::Attribute { name, body, context } => body,
        PatternModel::Group(values) => values,
        PatternModel::Interleave(values) => values,
        PatternModel::Choice(values) => values,
        PatternModel::Optional(values) => values,
        PatternModel::ZeroOrMore(values) => values,
        PatternModel::OneOrMore(values) => values,
        PatternModel::List(values) => values,
        PatternModel::Mixed(values) => values,
        _ => Seq::empty(),
    }
}

/// The patterns inside stand inside.
pub proof fn lemma_insides(p: PatternModel)
    ensures
        insides(p).len() > 0 ==> decreases_to!(p => insides(p)),
{
}

/// Whether no reference stands in a pattern.
pub open spec fn free_of_references(p: PatternModel) -> bool
    decreases p,
{
    !(p is Ref) && (insides(p).len() > 0 ==> {
        proof {
            lemma_insides(p);
        }
        all_free(insides(p))
    })
}

/// Whether no reference stands in any of the patterns.
pub open spec fn all_free(s: Seq<PatternModel>) -> bool
    decreases s,
{
    forall|i: int| 0 <= i < s.len() ==> free_of_references(#[trigger] s[i])
}

/// Where the patterns inside a pattern stand.
pub open spec fn further(p: PatternModel, inside: Inside) -> Inside {
    match p {
        PatternModel::Element { name, body, context } => inside_nothing(),
        PatternModel::Attribute { name, body, context } => Inside { attribute: true, ..inside },
        PatternModel::List(_) => Inside { list: true, ..inside },
        PatternModel::OneOrMore(_) => Inside { one_or_more: true, ..inside },
        PatternModel::ZeroOrMore(_) => Inside { one_or_more: true, ..inside },
        PatternModel::Group(_) => Inside {
            container: inside.container || inside.one_or_more,
            ..inside
        },
        PatternModel::Interleave(_) => Inside {
            container: inside.container || inside.one_or_more,
            ..inside
        },
        _ => inside,
    }
}

/// Whether exceptions are data, values and alternatives of them.
pub open spec fn data_only(p: PatternModel) -> bool
    decreases p,
{
    match p {
        PatternModel::Data { datatype, datatype_library, params, except, context } =>
            all_data_only(except),
        PatternModel::Value { value, datatype, datatype_library, namespace, context } => true,
        PatternModel::Choice(values) => all_data_only(values),
        _ => false,
    }
}

/// Whether all exceptions are.
pub open spec fn all_data_only(s: Seq<PatternModel>) -> bool
    decreases s,
{
    forall|i: int| 0 <= i < s.len() ==> data_only(#[trigger] s[i])
}

/// Whether a pattern may not stand where it does: in a list only data and values may, alone,
/// in groups, repeated or as alternatives; in an attribute neither an attribute nor an element;
/// in a repeated group no attribute; an attribute of infinitely many names only where it is
/// repeated; and an exception of a datatype only where it is data.
pub open spec fn clashes(p: PatternModel, inside: Inside) -> bool {
    ||| inside.list && (p is Attribute || p is Element || p is Text || p is List || p is Interleave)
    ||| inside.attribute && (p is Attribute || p is Element)
    ||| inside.container && p is Attribute
    ||| p is Attribute && infinite_names(p->Attribute_name) && !inside.one_or_more
    ||| p is Data && !all_data_only(p->Data_except)
}

/// Whether a pattern, or one inside it, may not stand where it does.
pub open spec fn clash_within(p: PatternModel, inside: Inside) -> bool
    decreases p,
{
    clashes(p, inside) || insides(p).len() > 0 && {
        proof {
            lemma_insides(p);
        }
        some_clash_within(insides(p), further(p, inside))
    }
}

/// Whether some pattern, or one inside it, may not stand where it does.
pub open spec fn some_clash_within(s: Seq<PatternModel>, inside: Inside) -> bool
    decreases s,
{
    exists|i: int| 0 <= i < s.len() && clash_within(#[trigger] s[i], inside)
}

/// Exceptions are accepted just where they are data.
proof fn lemma_exceptions(p: PatternModel)
    ensures
        except_problem(p) is None <==> data_only(p),
    decreases p, 0nat,
{
    match p {
        PatternModel::Data { datatype, datatype_library, params, except, context } => {
            lemma_all_exceptions(except, except.len());
        },
        PatternModel::Choice(values) => {
            lemma_all_exceptions(values, values.len());
        },
        _ => {},
    }
}

/// The first exceptions are accepted just where they are data.
proof fn lemma_all_exceptions(s: Seq<PatternModel>, n: nat)
    requires
        n <= s.len(),
    ensures
        except_problems(s, n) is None <==> (forall|i: int|
            0 <= i < n ==> data_only(#[trigger] s[i])),
    decreases s, n,
{
    if n > 0 {
        lemma_all_exceptions(s, (n - 1) as nat);
        lemma_exceptions(s[n - 1]);
    }
}

/// A pattern without references is accepted where it stands exactly if nothing in it clashes
/// with where it stands.
pub proof fn law_only_clashes_are_refused(
    p: PatternModel,
    inside: Inside,
    defs: Defs,
    visiting: Passed,
    passed: Passed,
    depth: nat,
)
    requires
        free_of_references(p),
    ensures
        restrict(p, inside, defs, visiting, passed, depth) is Ok <==> !clash_within(p, inside),
    decreases p, 1nat,
{
    let s = insides(p);
    if s.len() > 0 {
        lemma_insides(p);
        lemma_first_clashes(s, further(p, inside), defs, visiting, passed, depth, s.len());
        assert(some_clash_within(s, further(p, inside)) <==> exists|i: int|
            0 <= i < s.len() && clash_within(#[trigger] s[i], further(p, inside)));
    } else {
        assert(restrict_all(s, further(p, inside), defs, visiting, passed, depth, 0) is Ok);
    }
    match p {
        PatternModel::Data { datatype, datatype_library, params, except, context } => {
            lemma_all_exceptions(except, except.len());
            assert(all_data_only(except) <==> forall|i: int|
                0 <= i < except.len() ==> data_only(#[trigger] except[i]));
        },
        _ => {},
    }
}

/// The first patterns are accepted where they stand exactly if nothing in them clashes.
proof fn lemma_first_clashes(
    s: Seq<PatternModel>,
    inside: Inside,
    defs: Defs,
    visiting: Passed,
    passed: Passed,
    depth: nat,
    n: nat,
)
    requires
        n <= s.len(),
        all_free(s),
    ensures
        restrict_all(s, inside, defs, visiting, passed, depth, n) is Ok <==> !(exists|i: int|
            0 <= i < n && clash_within(#[trigger] s[i], inside)),
    decreases s, n,
{
    if n > 0 {
        let m = (n - 1) as nat;
        lemma_first_clashes(s, inside, defs, visiting, passed, depth, m);
        assert(free_of_references(s[n - 1]));
        match restrict_all(s, inside, defs, visiting, passed, depth, m) {
            Err(_) => {},
            Ok(before) => {
                law_only_clashes_are_refused(
                    s[n - 1],
                    inside,
                    defs,
                    visiting,
                    before,
                    depth,
                );
            },
        }
    }
}

// ---------------------------------------------------------------------
// Neighbours
// ---------------------------------------------------------------------

/// Whether a pattern of a sort stands in a pattern, in whatever operators but not inside an
/// element, an attribute or a list.
pub open spec fn open_in(p: PatternModel, sort: spec_fn(PatternModel) -> bool) -> bool
    decreases p,
{
    sort(p) || !(p is Element || p is Attribute || p is List) && insides(p).len() > 0 && {
        proof {
            lemma_insides(p);
        }
        some_open_in(insides(p), sort)
    }
}

/// Whether a pattern of a sort stands so in some of the patterns.
pub open spec fn some_open_in(s: Seq<PatternModel>, sort: spec_fn(PatternModel) -> bool) -> bool
    decreases s,
{
    exists|i: int| 0 <= i < s.len() && open_in(#[trigger] s[i], sort)
}

/// The attributes with a name class.
pub open spec fn attribute_named(class: NameModel) -> spec_fn(PatternModel) -> bool {
    |p: PatternModel| p matches PatternModel::Attribute { name, body, context } && name == class
}

/// The elements with a name class.
pub open spec fn element_named(class: NameModel) -> spec_fn(PatternModel) -> bool {
    |p: PatternModel| p matches PatternModel::Element { name, body, context } && name == class
}

/// The patterns of text.
pub open spec fn of_text() -> spec_fn(PatternModel) -> bool {
    |p: PatternModel| p is Text
}

/// The patterns of a single string.
pub open spec fn of_string() -> spec_fn(PatternModel) -> bool {
    |p: PatternModel| p is Data || p is Value || p is List
}

/// The patterns of children.
pub open spec fn of_child() -> spec_fn(PatternModel) -> bool {
    |p: PatternModel| p is Data || p is Value || p is List || p is Text || p is Element
}

/// What an operand without references holds is what stands in it: its attributes and elements
/// with their name classes, text, single strings and children.
pub proof fn law_holdings_are_what_stands_in_an_operand(
    p: PatternModel,
    defs: Defs,
    depth: nat,
    class: NameModel,
)
    requires
        free_of_references(p),
    ensures
        ({
            let h = held(p, defs, Seq::empty(), nothing_held(), depth);
            &&& h.attributes.contains(class) <==> open_in(p, attribute_named(class))
            &&& h.elements.contains(class) <==> open_in(p, element_named(class))
            &&& h.has_text <==> open_in(p, of_text())
            &&& h.string_capable <==> open_in(p, of_string())
            &&& h.child_capable <==> open_in(p, of_child())
        }),
{
    lemma_held(p, defs, Seq::empty(), nothing_held(), depth, class);
    assert(!nothing_held().attributes.contains(class));
    assert(!nothing_held().elements.contains(class));
}

/// What a pattern adds to what is held.
proof fn lemma_held(
    p: PatternModel,
    defs: Defs,
    visiting: Seq<Text>,
    out: Holdings,
    depth: nat,
    class: NameModel,
)
    requires
        free_of_references(p),
    ensures
        ({
            let h = held(p, defs, visiting, out, depth);
            &&& h.attributes.contains(class) <==> out.attributes.contains(class) || open_in(
                p,
                attribute_named(class),
            )
            &&& h.elements.contains(class) <==> out.elements.contains(class) || open_in(
                p,
                element_named(class),
            )
            &&& h.has_text <==> out.has_text || open_in(p, of_text())
            &&& h.string_capable <==> out.string_capable || open_in(p, of_string())
            &&& h.child_capable <==> out.child_capable || open_in(p, of_child())
        }),
    decreases p, 1nat,
{
    let s = insides(p);
    match p {
        PatternModel::Attribute { name, body, context } => {
            lemma_pushed(out.attributes, name, class);
        },
        PatternModel::Element { name, body, context } => {
            lemma_pushed(out.elements, name, class);
        },
        _ => {
            if s.len() > 0 && !(p is List) {
                lemma_insides(p);
                lemma_held_all(s, defs, visiting, out, depth, class, s.len());
                lemma_first_open(s, attribute_named(class));
                lemma_first_open(s, element_named(class));
                lemma_first_open(s, of_text());
                lemma_first_open(s, of_string());
                lemma_first_open(s, of_child());
            } else {
                assert(held_all(s, defs, visiting, out, depth, 0) == out);
            }
        },
    }
}

/// What was added is there, with what was.
proof fn lemma_pushed(s: Seq<NameModel>, name: NameModel, class: NameModel)
    ensures
        s.push(name).contains(class) <==> s.contains(class) || name == class,
{
    let t = s.push(name);
    if s.contains(class) {
        let i = choose|i: int| 0 <= i < s.len() && s[i] == class;
        assert(t[i] == class);
    }
    assert(t[s.len() as int] == name);
    if t.contains(class) {
        let i = choose|i: int| 0 <= i < t.len() && t[i] == class;
        if i < s.len() {
            assert(s[i] == class);
        }
    }
}

/// Whether a pattern of a sort stands so in one of the first patterns.
pub open spec fn first_open_in(
    s: Seq<PatternModel>,
    n: nat,
    sort: spec_fn(PatternModel) -> bool,
) -> bool {
    exists|i: int| 0 <= i < n && open_in(#[trigger] s[i], sort)
}

/// The first of all are all.
proof fn lemma_first_open(s: Seq<PatternModel>, sort: spec_fn(PatternModel) -> bool)
    ensures
        first_open_in(s, s.len(), sort) <==> some_open_in(s, sort),
{
}

/// What stands in the first patterns stands before the last of them or in it.
proof fn lemma_one_more_open(s: Seq<PatternModel>, n: nat, sort: spec_fn(PatternModel) -> bool)
    requires
        0 < n <= s.len(),
    ensures
        first_open_in(s, n, sort) <==> first_open_in(s, (n - 1) as nat, sort) || open_in(
            s[n - 1],
            sort,
        ),
{
    if first_open_in(s, (n - 1) as nat, sort) {
        let i = choose|i: int| 0 <= i < n - 1 && open_in(#[trigger] s[i], sort);
        assert(open_in(s[i], sort));
    }
}

/// What the first patterns add to what is held.
proof fn lemma_held_all(
    s: Seq<PatternModel>,
    defs: Defs,
    visiting: Seq<Text>,
    out: Holdings,
    depth: nat,
    class: NameModel,
    n: nat,
)
    requires
        n <= s.len(),
        all_free(s),
    ensures
        ({
            let h = held_all(s, defs, visiting, out, depth, n);
            &&& h.attributes.contains(class) <==> out.attributes.contains(class) || first_open_in(
                s,
                n,
                attribute_named(class),
            )
            &&& h.elements.contains(class) <==> out.elements.contains(class) || first_open_in(
                s,
                n,
                element_named(class),
            )
            &&& h.has_text <==> out.has_text || first_open_in(s, n, of_text())
            &&& h.string_capable <==> out.string_capable || first_open_in(s, n, of_string())
            &&& h.child_capable <==> out.child_capable || first_open_in(s, n, of_child())
        }),
    decreases s, n,
{
    if n > 0 {
        let m = (n - 1) as nat;
        lemma_held_all(s, defs, visiting, out, depth, class, m);
        assert(free_of_references(s[n - 1]));
        let before = held_all(s, defs, visiting, out, depth, m);
        lemma_held(s[n - 1], defs, visiting, before, depth, class);
        lemma_one_more_open(s, n, attribute_named(class));
        lemma_one_more_open(s, n, element_named(class));
        lemma_one_more_open(s, n, of_text());
        lemma_one_more_open(s, n, of_string());
        lemma_one_more_open(s, n, of_child());
    }
}

/// Whether two neighbours clash: a single string beside a child, two attributes that may have
/// the same name, and in an interleave text on both sides or two elements that may have the
/// same name.
pub open spec fn neighbours_clash(a: Holdings, b: Holdings, is_interleave: bool) -> bool {
    ||| a.string_capable && b.child_capable
    ||| a.child_capable && b.string_capable
    ||| exists|i: int, j: int|
        0 <= i < a.attributes.len() && 0 <= j < b.attributes.len() && overlap(
            #[trigger] a.attributes[i],
            #[trigger] b.attributes[j],
        )
    ||| is_interleave && a.has_text && b.has_text
    ||| is_interleave && exists|i: int, j: int|
        0 <= i < a.elements.len() && 0 <= j < b.elements.len() && overlap(
            #[trigger] a.elements[i],
            #[trigger] b.elements[j],
        )
}

/// The operands of a group or an interleave are accepted exactly if no two of them clash.
pub proof fn law_only_clashing_neighbours_are_refused(
    s: Seq<PatternModel>,
    defs: Defs,
    is_interleave: bool,
    depth: nat,
)
    ensures
        operands_problem(s, defs, is_interleave, depth) is None <==> (forall|i: int, j: int|
            0 <= i < j < s.len() ==> !neighbours_clash(
                #[trigger] holdings_of(s, defs, depth)[i],
                #[trigger] holdings_of(s, defs, depth)[j],
                is_interleave,
            )),
{
    let h = holdings_of(s, defs, depth);
    lemma_rows(h, is_interleave, h.len());
}

/// The first rows are accepted exactly if none of them clashes with a later one.
proof fn lemma_rows(h: Seq<Holdings>, is_interleave: bool, n: nat)
    requires
        n <= h.len(),
    ensures
        rows_problem(h, is_interleave, n) is None <==> (forall|i: int, j: int|
            0 <= i < n && i < j < h.len() ==> !neighbours_clash(
                #[trigger] h[i],
                #[trigger] h[j],
                is_interleave,
            )),
    decreases n,
{
    if n > 0 {
        lemma_rows(h, is_interleave, (n - 1) as nat);
        lemma_row(h, n - 1, is_interleave, h.len());
        if forall|i: int, j: int|
            0 <= i < n && i < j < h.len() ==> !neighbours_clash(
                #[trigger] h[i],
                #[trigger] h[j],
                is_interleave,
            ) {
            assert forall|j: int| n - 1 < j < h.len() implies !neighbours_clash(
                h[n - 1],
                #[trigger] h[j],
                is_interleave,
            ) by {
                assert(!neighbours_clash(h[n - 1], h[j], is_interleave));
            }
        }
    }
}

/// A row is accepted exactly if the operand clashes with no later one.
proof fn lemma_row(h: Seq<Holdings>, i: int, is_interleave: bool, n: nat)
    requires
        0 <= i < h.len(),
        n <= h.len(),
    ensures
        row_problem(h, i, is_interleave, n) is None <==> (forall|j: int|
            i < j < n ==> !neighbours_clash(h[i], #[trigger] h[j], is_interleave)),
    decreases n,
{
    if n > 0 {
        lemma_row(h, i, is_interleave, (n - 1) as nat);
        if i < n - 1 {
            assert(pair_problem(h[i], h[n - 1], is_interleave) is None <==> !neighbours_clash(
                h[i],
                h[n - 1],
                is_interleave,
            ));
        }
    }
}

/// Whether a pattern is an element, not allowed, or alternatives of such.
pub open spec fn opens_document(p: PatternModel) -> bool
    decreases p,
{
    match p {
        PatternModel::Element { name, body, context } => true,
        PatternModel::NotAllowed => true,
        PatternModel::Choice(values) => all_open_document(values),
        _ => false,
    }
}

/// Whether all alternatives are.
pub open spec fn all_open_document(s: Seq<PatternModel>) -> bool
    decreases s,
{
    forall|i: int| 0 <= i < s.len() ==> opens_document(#[trigger] s[i])
}

/// Whether a pattern has one of the forms of composed schemas, and no reference stands in it.
pub open spec fn composed(p: PatternModel) -> bool
    decreases p,
{
    match p {
        PatternModel::Choice(values) => forall|i: int|
            0 <= i < values.len() ==> composed(#[trigger] values[i]),
        _ => !(p is Ref || p is ParentRef || p is ExternalRef || p is Grammar || p is Optional || p
            is ZeroOrMore || p is Mixed),
    }
}

/// A composed schema without references may start with an element, with what is not allowed
/// and with alternatives of such, and with nothing else.
pub proof fn law_schemas_may_start_with_elements(
    p: PatternModel,
    defs: Defs,
    visiting: Seq<Text>,
    depth: nat,
)
    requires
        composed(p),
    ensures
        start_problem(p, defs, visiting, depth) is None <==> opens_document(p),
    decreases p, 1nat,
{
    match p {
        PatternModel::Choice(values) => {
            lemma_starts(values, defs, visiting, depth, values.len());
            assert(all_open_document(values) <==> forall|i: int|
                0 <= i < values.len() ==> opens_document(#[trigger] values[i]));
        },
        _ => {},
    }
}

/// The first alternatives may stand at the start exactly if each may.
proof fn lemma_starts(
    s: Seq<PatternModel>,
    defs: Defs,
    visiting: Seq<Text>,
    depth: nat,
    n: nat,
)
    requires
        n <= s.len(),
        forall|i: int| 0 <= i < s.len() ==> composed(#[trigger] s[i]),
    ensures
        start_problems(s, defs, visiting, depth, n) is None <==> (forall|i: int|
            0 <= i < n ==> opens_document(#[trigger] s[i])),
    decreases s, n,
{
    if n > 0 {
        lemma_starts(s, defs, visiting, depth, (n - 1) as nat);
        assert(composed(s[n - 1]));
        law_schemas_may_start_with_elements(s[n - 1], defs, visiting, depth);
    }
}

/// Only for a group or an interleave whose operands clash is a pattern refused. The result is
/// one that stands in it.
pub proof fn law_only_groups_of_clashing_neighbours_are_refused(
    p: PatternModel,
    defs: Defs,
    depth: nat,
) -> (q: PatternModel)
    requires
        groups_problem(p, defs, depth) is Some,
    ensures
        stands(p, q),
        q is Group || q is Interleave,
        operands_problem(insides(q), defs, q is Interleave, depth) is Some,
    decreases p, 1nat,
{
    if p is Group && operands_problem(insides(p), defs, false, depth) is Some {
        p
    } else if p is Interleave && operands_problem(insides(p), defs, true, depth) is Some {
        p
    } else {
        let s = insides(p);
        if s.len() == 0 {
            assert(all_groups_problem(s, defs, depth, 0) is None);
            p
        } else {
            lemma_insides(p);
            let q = lemma_some_group(s, defs, depth, s.len());
            assert(operands(p) == Some(s));
            assert(some_stands(s, q));
            q
        }
    }
}

/// One of the first patterns holds a group that was refused.
proof fn lemma_some_group(s: Seq<PatternModel>, defs: Defs, depth: nat, n: nat) -> (q: PatternModel)
    requires
        n <= s.len(),
        all_groups_problem(s, defs, depth, n) is Some,
    ensures
        some_stands(s, q),
        q is Group || q is Interleave,
        operands_problem(insides(q), defs, q is Interleave, depth) is Some,
    decreases s, n,
{
    if all_groups_problem(s, defs, depth, (n - 1) as nat) is Some {
        lemma_some_group(s, defs, depth, (n - 1) as nat)
    } else {
        let q = law_only_groups_of_clashing_neighbours_are_refused(s[n - 1], defs, depth);
        assert(stands(s[n - 1], q));
        q
    }
}

} // verus!
