//! What it is for an element to be valid: its attributes and its children are what its
//! content model describes.
use vstd::multiset::Multiset;
use vstd::prelude::*;

use crate::algebra::choice_of;
use crate::attribute_order::{by_name, in_order, lemma_total, Attribute};
use crate::data_apart::{
    all_data_apart_within, all_settled_within, choices_settled_within, data_apart,
    data_apart_within, lemma_attribute_apart, lemma_child_apart, lemma_nothing_matches,
    row_apart_within, settled, settled_within,
};
use crate::datatypes::registry::{Bindings, RegistryModel};
use crate::derivative::{
    all_expect_text, all_nullable, child_derivative, child_derivatives, expects_text, is_nullable,
    next_expect_text, some_expect_text, some_nullable, text_derivative, text_derivatives, Child,
    Container, Defs, MAX_DEPTH,
};
use crate::expectation::{
    law_attributes_are_taken_at_any_position, lemma_allowed, lemma_left_in_form,
};
use crate::forms::{all_in_form, defs_in_form, in_form};
use crate::grammar::PatternModel;
use crate::grounded::{
    all_grounded, grounded, lemma_attribute_grounded, lemma_child_grounded, lemma_text_steady,
};
use crate::language::{
    joins, law_child_sequences_are_recognized, lemma_deeper, lemma_join_nothing, lemma_last_time,
    lemma_one_more_time, lemma_parts, lemma_whole, positive, remaining, some_times, some_within,
    times, together, within, Word,
};
use crate::matching::{
    law_attribute_derivative_leaves_the_rest, left_after, lemma_last_repeated,
    lemma_meets_nothing, lemma_meets_steady, lemma_no_attribute, lemma_repeated_more,
    lemma_share_nothing, lemma_shares, lemma_sharing, makes, meets, nothing, repeated, shared,
    some_meet, some_repeated, with, Given, Setting,
};
use crate::shapes::{
    all_shaped_within, childless, lemma_attribute_shaped, lemma_child_shaped, shaped,
    shaped_within, Shape,
};
use crate::string_map::{has_key, lemma_lookup_index, lookup};
use crate::text::{blank, Text};
use crate::validator::{
    child_event, is_valid, taken_attributes, taken_children, ContentModel, ElementModel,
};

verus! {

// ---------------------------------------------------------------------
// Children alone
// ---------------------------------------------------------------------

/// Children without attributes.
pub open spec fn only(w: Word) -> Given {
    Given { attributes: Multiset::empty(), children: w }
}

/// The shares of children without attributes are without attributes.
proof fn lemma_only(ordered: bool, a: Given, b: Given, w: Word)
    requires
        makes(ordered, a, b, only(w)),
    ensures
        a == only(a.children),
        b == only(b.children),
        joins(ordered, a.children, b.children, w),
{
    let none = Multiset::<Attribute>::empty();
    assert forall|x: Attribute| #[trigger]
        a.attributes.count(x) == 0 && b.attributes.count(x) == 0 by {
        assert(a.attributes.add(b.attributes).count(x) == a.attributes.count(x)
            + b.attributes.count(x));
        assert(none.count(x) == 0);
    }
    assert(a.attributes =~= none);
    assert(b.attributes =~= none);
}

/// Children that join make what is given without attributes.
proof fn lemma_only_makes(ordered: bool, u: Word, v: Word, w: Word)
    requires
        joins(ordered, u, v, w),
    ensures
        makes(ordered, only(u), only(v), only(w)),
{
    let none = Multiset::<Attribute>::empty();
    assert(none =~= none.add(none));
}

/// Without attributes, a content model describes the children that it accepts.
proof fn lemma_accepted_meets(p: PatternModel, w: Word, e: Setting, depth: nat)
    requires
        within(p, w, e.defs, depth),
    ensures
        meets(p, only(w), e, depth),
    decreases depth, p, 0nat, 0nat,
{
    match p {
        PatternModel::Group(values) => {
            lemma_accepted_shared(true, values, values.len(), w, e, depth);
        },
        PatternModel::Interleave(values) => {
            lemma_accepted_shared(false, values, values.len(), w, e, depth);
        },
        PatternModel::Choice(values) => {
            assert(some_within(values, w, e.defs, depth));
            let i = choose|i: int|
                0 <= i < values.len() && within(#[trigger] values[i], w, e.defs, depth);
            lemma_accepted_meets(values[i], w, e, depth);
            assert(some_meet(values, only(w), e, depth));
        },
        PatternModel::OneOrMore(values) => {
            let q = values[0];
            assert(some_times(q, w, e.defs, depth));
            let k = choose|k: nat| #[trigger] positive(k) && times(q, k, w, e.defs, depth);
            lemma_accepted_repeated(q, k, w, e, depth);
            assert(positive(k));
            assert(some_repeated(q, only(w), e, depth));
        },
        PatternModel::Ref(name) => {
            lemma_accepted_meets(lookup(e.defs, name)->0, w, e, (depth - 1) as nat);
        },
        _ => {},
    }
}

/// Without attributes, content models describe together the children that they accept
/// together.
proof fn lemma_accepted_shared(
    ordered: bool,
    s: Seq<PatternModel>,
    n: nat,
    w: Word,
    e: Setting,
    depth: nat,
)
    requires
        n <= s.len(),
        together(ordered, s, n, w, e.defs, depth),
    ensures
        shared(ordered, s, n, only(w), e, depth),
    decreases depth, s, n, 1nat,
{
    if n == 0 {
        assert(w =~= Seq::<Child>::empty());
    } else {
        let (u, v) = lemma_parts(ordered, s, n, w, e.defs, depth);
        lemma_only_makes(ordered, u, v, w);
        lemma_accepted_shared(ordered, s, (n - 1) as nat, u, e, depth);
        lemma_accepted_meets(s[n - 1], v, e, depth);
        lemma_sharing(ordered, s, n, only(u), only(v), only(w), e, depth);
    }
}

/// Without attributes, a content model describes some times the children that it accepts so
/// many times.
proof fn lemma_accepted_repeated(p: PatternModel, k: nat, w: Word, e: Setting, depth: nat)
    requires
        times(p, k, w, e.defs, depth),
    ensures
        repeated(p, k, only(w), e, depth),
    decreases depth, p, 1nat, k,
{
    if k == 0 {
        assert(w =~= Seq::<Child>::empty());
    } else {
        let (u, v) = lemma_last_time(p, k, w, e.defs, depth);
        lemma_only_makes(true, u, v, w);
        lemma_accepted_repeated(p, (k - 1) as nat, u, e, depth);
        lemma_accepted_meets(p, v, e, depth);
        lemma_repeated_more(p, k, only(u), only(v), only(w), e, depth);
    }
}

/// What is settled and is satisfied by nothing accepts that there are no children.
proof fn lemma_settled_nothing(p: PatternModel, e: Setting, depth: nat)
    requires
        settled_within(p, e.defs, depth),
        is_nullable(p, e.defs, e.registry, depth),
    ensures
        within(p, Seq::empty(), e.defs, depth),
    decreases depth, p, 0nat,
{
    let none = Seq::<Child>::empty();
    match p {
        PatternModel::Group(values) => {
            assert(all_nullable(values, e.defs, e.registry, depth));
            assert(all_settled_within(values, e.defs, depth));
            lemma_settled_nothing_shared(true, values, values.len(), e, depth);
        },
        PatternModel::Interleave(values) => {
            assert(all_nullable(values, e.defs, e.registry, depth));
            assert(all_settled_within(values, e.defs, depth));
            lemma_settled_nothing_shared(false, values, values.len(), e, depth);
        },
        PatternModel::Choice(values) => {
            assert(some_nullable(values, e.defs, e.registry, depth));
            assert(choices_settled_within(values, e.defs, depth));
            let i = choose|i: int|
                0 <= i < values.len() && is_nullable(
                    #[trigger] values[i],
                    e.defs,
                    e.registry,
                    depth,
                );
            if settled_within(values[i], e.defs, depth) {
                lemma_settled_nothing(values[i], e, depth);
                assert(within(values[i], none, e.defs, depth));
            } else {
                let j = choose|j: int| 0 <= j < values.len() && values[j] == PatternModel::Empty;
                assert(within(values[j], none, e.defs, depth));
            }
            assert(some_within(values, none, e.defs, depth));
        },
        PatternModel::OneOrMore(values) => {
            let q = values[0];
            assert(all_settled_within(values, e.defs, depth));
            lemma_settled_nothing(q, e, depth);
            lemma_join_nothing(true, none, none);
            assert(times(q, 0, none, e.defs, depth));
            lemma_one_more_time(q, 1, none, none, none, e.defs, depth);
            assert(positive(1));
            assert(some_times(q, none, e.defs, depth));
        },
        PatternModel::Ref(name) => {
            lemma_settled_nothing(lookup(e.defs, name)->0, e, (depth - 1) as nat);
        },
        _ => {},
    }
}

/// What are settled and are satisfied by nothing accept together that there are no children.
proof fn lemma_settled_nothing_shared(
    ordered: bool,
    s: Seq<PatternModel>,
    n: nat,
    e: Setting,
    depth: nat,
)
    requires
        n <= s.len(),
        forall|i: int| 0 <= i < n ==> settled_within(#[trigger] s[i], e.defs, depth),
        forall|i: int|
            0 <= i < n ==> is_nullable(#[trigger] s[i], e.defs, e.registry, depth),
    ensures
        together(ordered, s, n, Seq::empty(), e.defs, depth),
    decreases depth, s, n,
{
    let none = Seq::<Child>::empty();
    if n > 0 {
        assert(settled_within(s[n - 1], e.defs, depth));
        assert(is_nullable(s[n - 1], e.defs, e.registry, depth));
        lemma_settled_nothing(s[n - 1], e, depth);
        lemma_settled_nothing_shared(ordered, s, (n - 1) as nat, e, depth);
        lemma_join_nothing(ordered, none, none);
        lemma_whole(ordered, s, n, none, none, none, e.defs, depth);
    }
}

/// What takes no children has none.
proof fn lemma_no_children(p: PatternModel, m: Given, e: Setting, depth: nat)
    requires
        shaped_within(p, childless(), e.defs, depth),
        meets(p, m, e, depth),
    ensures
        m.children.len() == 0,
    decreases depth, p, 0nat, 0nat,
{
    match p {
        PatternModel::Group(values) => {
            assert(all_shaped_within(values, childless(), e.defs, depth));
            lemma_no_children_shared(true, values, values.len(), m, e, depth);
        },
        PatternModel::Interleave(values) => {
            assert(all_shaped_within(values, childless(), e.defs, depth));
            lemma_no_children_shared(false, values, values.len(), m, e, depth);
        },
        PatternModel::Choice(values) => {
            assert(some_meet(values, m, e, depth));
            let i = choose|i: int|
                0 <= i < values.len() && meets(#[trigger] values[i], m, e, depth);
            assert(all_shaped_within(values, childless(), e.defs, depth));
            lemma_no_children(values[i], m, e, depth);
        },
        PatternModel::OneOrMore(values) => {
            assert(all_shaped_within(values, childless(), e.defs, depth));
            assert(some_repeated(values[0], m, e, depth));
            let k = choose|k: nat| #[trigger] positive(k) && repeated(values[0], k, m, e, depth);
            lemma_no_children_repeated(values[0], k, m, e, depth);
        },
        PatternModel::Ref(name) => {
            lemma_no_children(lookup(e.defs, name)->0, m, e, (depth - 1) as nat);
        },
        _ => {},
    }
}

/// What takes no children, one share each, has none.
proof fn lemma_no_children_shared(
    ordered: bool,
    s: Seq<PatternModel>,
    n: nat,
    m: Given,
    e: Setting,
    depth: nat,
)
    requires
        n <= s.len(),
        forall|i: int| 0 <= i < n ==> shaped_within(#[trigger] s[i], childless(), e.defs, depth),
        shared(ordered, s, n, m, e, depth),
    ensures
        m.children.len() == 0,
    decreases depth, s, n, 1nat,
{
    if n > 0 {
        let (a, b) = lemma_shares(ordered, s, n, m, e, depth);
        lemma_no_children_shared(ordered, s, (n - 1) as nat, a, e, depth);
        lemma_no_children(s[n - 1], b, e, depth);
        assert(a.children =~= Seq::<Child>::empty());
        lemma_join_nothing(ordered, b.children, m.children);
    }
}

/// What takes no children, some times, has none.
proof fn lemma_no_children_repeated(p: PatternModel, k: nat, m: Given, e: Setting, depth: nat)
    requires
        shaped_within(p, childless(), e.defs, depth),
        repeated(p, k, m, e, depth),
    ensures
        m.children.len() == 0,
    decreases depth, p, 1nat, k,
{
    if k > 0 {
        let (a, b) = lemma_last_repeated(p, k, m, e, depth);
        lemma_no_children_repeated(p, (k - 1) as nat, a, e, depth);
        lemma_no_children(p, b, e, depth);
        assert(a.children =~= Seq::<Child>::empty());
        lemma_join_nothing(true, b.children, m.children);
    }
}

/// Without attributes, a content model whose data stands apart accepts the children that it
/// describes, where there are any.
proof fn lemma_meets_accepted(p: PatternModel, w: Word, e: Setting, depth: nat)
    requires
        w.len() > 0,
        data_apart_within(p, e.defs, depth),
        meets(p, only(w), e, depth),
    ensures
        within(p, w, e.defs, depth),
    decreases depth, p, 0nat, 0nat,
{
    match p {
        PatternModel::Attribute { name, body, context } => {
            lemma_no_attribute(name, body, only(w), e, depth);
        },
        PatternModel::Group(values) => {
            lemma_shared_accepted(true, values, values.len(), w, e, depth);
        },
        PatternModel::Interleave(values) => {
            lemma_shared_accepted(false, values, values.len(), w, e, depth);
        },
        PatternModel::Choice(values) => {
            assert(all_data_apart_within(values, e.defs, depth));
            assert(some_meet(values, only(w), e, depth));
            let i = choose|i: int|
                0 <= i < values.len() && meets(#[trigger] values[i], only(w), e, depth);
            lemma_meets_accepted(values[i], w, e, depth);
            assert(some_within(values, w, e.defs, depth));
        },
        PatternModel::OneOrMore(values) => {
            let q = values[0];
            assert(all_data_apart_within(values, e.defs, depth));
            assert(some_repeated(q, only(w), e, depth));
            let k = choose|k: nat| #[trigger] positive(k) && repeated(q, k, only(w), e, depth);
            let fewer = lemma_repeated_accepted(q, k, w, e, depth);
            assert(positive(fewer));
            assert(some_times(q, w, e.defs, depth));
        },
        PatternModel::Ref(name) => {
            lemma_meets_accepted(lookup(e.defs, name)->0, w, e, (depth - 1) as nat);
        },
        _ => {},
    }
}

/// Without attributes, a row of content models whose data stands apart accepts the children
/// that it describes, where there are any.
proof fn lemma_shared_accepted(
    ordered: bool,
    s: Seq<PatternModel>,
    n: nat,
    w: Word,
    e: Setting,
    depth: nat,
)
    requires
        w.len() > 0,
        n <= s.len(),
        all_data_apart_within(s, e.defs, depth),
        row_apart_within(s, e.defs, depth),
        shared(ordered, s, n, only(w), e, depth),
    ensures
        together(ordered, s, n, w, e.defs, depth),
    decreases depth, s, n, 1nat,
{
    let none = Seq::<Child>::empty();
    if n > 0 {
        let m = (n - 1) as nat;
        let last = s[n - 1];
        assert(data_apart_within(last, e.defs, depth));
        let (a, b) = lemma_shares(ordered, s, n, only(w), e, depth);
        lemma_only(ordered, a, b, w);
        if a.children.len() == 0 {
            assert(a.children =~= none);
            assert(a == nothing());
            lemma_join_nothing(ordered, b.children, w);
            lemma_meets_accepted(last, w, e, depth);
            if shaped_within(last, childless(), e.defs, depth) {
                lemma_no_children(last, b, e, depth);
            }
            lemma_share_nothing(ordered, s, m, e, depth);
            assert forall|i: int| 0 <= i < m implies settled_within(
                #[trigger] s[i],
                e.defs,
                depth,
            ) by {
                assert(settled_within(s[i], e.defs, depth) || shaped_within(
                    s[n - 1],
                    childless(),
                    e.defs,
                    depth,
                ));
            }
            lemma_settled_nothing_shared(ordered, s, m, e, depth);
            lemma_whole(ordered, s, n, none, w, w, e.defs, depth);
        } else {
            lemma_shared_accepted(ordered, s, m, a.children, e, depth);
            if b.children.len() == 0 {
                assert(b.children =~= none);
                assert(b == nothing());
                lemma_meets_nothing(last, e, depth);
                if !settled_within(last, e.defs, depth) {
                    assert forall|i: int| 0 <= i < m implies shaped_within(
                        #[trigger] s[i],
                        childless(),
                        e.defs,
                        depth,
                    ) by {
                        assert(settled_within(s[n - 1], e.defs, depth) || shaped_within(
                            s[i],
                            childless(),
                            e.defs,
                            depth,
                        ));
                    }
                    lemma_no_children_shared(ordered, s, m, a, e, depth);
                }
                lemma_settled_nothing(last, e, depth);
            } else {
                lemma_meets_accepted(last, b.children, e, depth);
            }
            lemma_whole(ordered, s, n, a.children, b.children, w, e.defs, depth);
        }
    }
}

/// Without attributes, a content model whose data stands apart accepts some times the
/// children that it describes, those times left out that take none.
proof fn lemma_repeated_accepted(p: PatternModel, k: nat, w: Word, e: Setting, depth: nat) -> (r:
    nat)
    requires
        w.len() > 0,
        data_apart_within(p, e.defs, depth),
        repeated(p, k, only(w), e, depth),
    ensures
        r > 0,
        times(p, r, w, e.defs, depth),
    decreases depth, p, 1nat, k,
{
    let none = Seq::<Child>::empty();
    if k == 0 {
        assert(only(w) == nothing());
        0
    } else {
        let (a, b) = lemma_last_repeated(p, k, only(w), e, depth);
        lemma_only(true, a, b, w);
        if b.children.len() == 0 {
            assert(b.children =~= none);
            lemma_join_nothing(true, a.children, w);
            lemma_repeated_accepted(p, (k - 1) as nat, w, e, depth)
        } else {
            lemma_meets_accepted(p, b.children, e, depth);
            if a.children.len() == 0 {
                assert(a.children =~= none);
                assert(times(p, 0, none, e.defs, depth));
                lemma_one_more_time(p, 1, none, b.children, w, e.defs, depth);
                1
            } else {
                let r = lemma_repeated_accepted(p, (k - 1) as nat, a.children, e, depth);
                lemma_one_more_time(p, r + 1, a.children, b.children, w, e.defs, depth);
                r + 1
            }
        }
    }
}

/// Where references come to an end and data stands apart, nothing more is needed after
/// children just where the content model describes them.
pub proof fn lemma_recognized(p: PatternModel, w: Word, e: Setting, depth: nat)
    requires
        data_apart(p, e.defs),
        grounded(p, e.defs, depth),
        in_form(p, false),
        defs_in_form(e.defs),
    ensures
        is_nullable(remaining(p, w, e.defs, depth), e.defs, e.registry, depth) == meets(
            p,
            only(w),
            e,
            depth,
        ),
{
    let left = remaining(p, w, e.defs, depth);
    let none = Seq::<Child>::empty();
    assert(only(none) == nothing());
    if w.len() == 0 {
        assert(w =~= none);
        lemma_meets_nothing(p, e, depth);
    } else {
        lemma_remaining(p, w, e.defs, depth);
        lemma_meets_nothing(left, e, depth);
        law_child_sequences_are_recognized(p, w, e.defs, depth);
        assert(data_apart_within(p, e.defs, depth));
        if meets(p, only(w), e, depth) {
            lemma_meets_accepted(p, w, e, depth);
            lemma_accepted_meets(left, none, e, depth);
        }
        if is_nullable(left, e.defs, e.registry, depth) {
            assert(settled_within(left, e.defs, depth));
            lemma_settled_nothing(left, e, depth);
            let d = choose|d: nat| #[trigger] within(p, w, e.defs, d);
            lemma_accepted_meets(p, w, e, d);
            if d <= depth {
                lemma_deeper(p, w, e.defs, d, depth);
                lemma_accepted_meets(p, w, e, depth);
            } else {
                lemma_meets_steady(p, only(w), e, depth, d);
            }
        }
    }
}

// ---------------------------------------------------------------------
// Text
// ---------------------------------------------------------------------

/// Text as a child: what data takes it.
pub open spec fn text_child(
    text: Text,
    context: Bindings,
    defs: Defs,
    registry: RegistryModel,
) -> Child {
    Child::Text(
        |leaf: PatternModel|
            text_derivative(leaf, text, defs, registry, context, MAX_DEPTH as nat) is Empty,
    )
}

/// What is left after text is what is left after it as a child, where references come to an
/// end.
pub proof fn lemma_text(
    p: PatternModel,
    text: Text,
    defs: Defs,
    registry: RegistryModel,
    context: Bindings,
    depth: nat,
)
    requires
        grounded(p, defs, depth),
        depth <= MAX_DEPTH,
    ensures
        text_derivative(p, text, defs, registry, context, depth) == child_derivative(
            p,
            text_child(text, context, defs, registry),
            defs,
            depth,
        ),
    decreases depth, p,
{
    match p {
        PatternModel::Data { datatype, datatype_library, params, except, context: c } => {
            let most = MAX_DEPTH as nat;
            lemma_text_steady(p, text, defs, registry, context, depth, most);
        },
        PatternModel::List(values) => {
            let most = MAX_DEPTH as nat;
            lemma_text_steady(p, text, defs, registry, context, depth, most);
        },
        PatternModel::Group(values) => {
            lemma_texts(values, text, defs, registry, context, depth);
        },
        PatternModel::Interleave(values) => {
            lemma_texts(values, text, defs, registry, context, depth);
        },
        PatternModel::Choice(values) => {
            lemma_texts(values, text, defs, registry, context, depth);
        },
        PatternModel::OneOrMore(values) => {
            if values.len() > 0 {
                assert(all_grounded(values, defs, depth));
                lemma_text(values[0], text, defs, registry, context, depth);
            }
        },
        PatternModel::Ref(name) => {
            if depth > 0 && lookup(defs, name) is Some {
                let below = (depth - 1) as nat;
                lemma_text(lookup(defs, name)->0, text, defs, registry, context, below);
            }
        },
        _ => {},
    }
}

/// What is left of each after text is what is left after it as a child.
proof fn lemma_texts(
    s: Seq<PatternModel>,
    text: Text,
    defs: Defs,
    registry: RegistryModel,
    context: Bindings,
    depth: nat,
)
    requires
        all_grounded(s, defs, depth),
        depth <= MAX_DEPTH,
    ensures
        text_derivatives(s, text, defs, registry, context, depth) == child_derivatives(
            s,
            text_child(text, context, defs, registry),
            defs,
            depth,
        ),
    decreases depth, s,
{
    let a = text_derivatives(s, text, defs, registry, context, depth);
    let b = child_derivatives(s, text_child(text, context, defs, registry), defs, depth);
    assert forall|i: int| 0 <= i < s.len() implies #[trigger] a[i] == b[i] by {
        assert(grounded(s[i], defs, depth));
        lemma_text(s[i], text, defs, registry, context, depth);
    }
    assert(a =~= b);
}

/// Where there is neither text nor data, no text is wanted and none can be taken.
proof fn lemma_textless(p: PatternModel, shape: Shape, child: Child, defs: Defs, depth: nat)
    requires
        !shape.text,
        !shape.data,
        shaped_within(p, shape, defs, depth),
        in_form(p, false),
        defs_in_form(defs),
        child is Text,
    ensures
        child_derivative(p, child, defs, depth) is NotAllowed,
        !expects_text(p, defs, depth),
    decreases depth, p,
{
    match p {
        PatternModel::Group(values) => {
            lemma_all_textless(values, shape, child, defs, depth);
            lemma_nothing_matches(
                values,
                child_derivatives(values, child, defs, depth),
                true,
                Container::Group,
                defs,
                depth,
                values.len(),
            );
            assert(!next_expect_text(values, defs, depth));
        },
        PatternModel::Interleave(values) => {
            lemma_all_textless(values, shape, child, defs, depth);
            lemma_nothing_matches(
                values,
                child_derivatives(values, child, defs, depth),
                false,
                Container::Interleave,
                defs,
                depth,
                values.len(),
            );
            assert(!some_expect_text(values, defs, depth));
        },
        PatternModel::Choice(values) => {
            lemma_all_textless(values, shape, child, defs, depth);
            lemma_allowed(child_derivatives(values, child, defs, depth));
            assert(!expects_text(values[0], defs, depth));
            assert(!all_expect_text(values, defs, depth));
        },
        PatternModel::OneOrMore(values) => {
            assert(all_shaped_within(values, shape, defs, depth));
            assert(in_form(values[0], false));
            lemma_textless(values[0], shape, child, defs, depth);
            let derived = child_derivative(values[0], child, defs, depth);
            let both = seq![derived, choice_of(seq![p, PatternModel::Empty])];
            assert(both[0] == PatternModel::NotAllowed);
            assert(both.contains(PatternModel::NotAllowed));
        },
        PatternModel::Ref(name) => {
            if depth > 0 && has_key(defs, name) {
                let k = lemma_lookup_index(defs, name);
                assert(in_form(defs[k].1, false));
                lemma_textless(lookup(defs, name)->0, shape, child, defs, (depth - 1) as nat);
            }
        },
        _ => {},
    }
}

/// Where there is neither text nor data in any, no text is wanted and none can be taken.
proof fn lemma_all_textless(
    s: Seq<PatternModel>,
    shape: Shape,
    child: Child,
    defs: Defs,
    depth: nat,
)
    requires
        !shape.text,
        !shape.data,
        all_shaped_within(s, shape, defs, depth),
        all_in_form(s, false),
        defs_in_form(defs),
        child is Text,
    ensures
        forall|i: int|
            0 <= i < s.len() ==> (#[trigger] child_derivatives(s, child, defs, depth)[i]) is NotAllowed,
        forall|i: int| 0 <= i < s.len() ==> !expects_text(#[trigger] s[i], defs, depth),
    decreases depth, s,
{
    assert forall|i: int| 0 <= i < s.len() implies !expects_text(#[trigger] s[i], defs, depth)
        && child_derivative(s[i], child, defs, depth) is NotAllowed by {
        assert(in_form(s[i], false));
        lemma_textless(s[i], shape, child, defs, depth);
    }
}

// ---------------------------------------------------------------------
// Attributes, one after the other
// ---------------------------------------------------------------------

/// What is given with more attributes.
pub open spec fn with_all(m: Given, s: Seq<Attribute>) -> Given {
    Given { attributes: m.attributes.add(s.to_multiset()), children: m.children }
}

/// What is left after the first `n` attributes, where each fits, describes what the content
/// model describes together with them, and where one does not fit nothing does.
pub proof fn lemma_taken(
    content: PatternModel,
    shape: Shape,
    all: Seq<Attribute>,
    n: nat,
    m: Given,
    e: Setting,
)
    requires
        n <= all.len(),
        in_form(content, false),
        defs_in_form(e.defs),
        grounded(content, e.defs, MAX_DEPTH as nat),
        shaped(content, shape, e.defs),
        data_apart(content, e.defs),
    ensures
        ({
            let depth = MAX_DEPTH as nat;
            let whole = with_all(m, all.take(n as int));
            match taken_attributes(content, all, n, e.context, e.defs, e.registry) {
                Some(p) => {
                    &&& in_form(p, false)
                    &&& grounded(p, e.defs, depth)
                    &&& shaped(p, shape, e.defs)
                    &&& data_apart(p, e.defs)
                    &&& meets(p, m, e, depth) == meets(content, whole, e, depth)
                },
                None => !meets(content, whole, e, depth),
            }
        }),
    decreases n,
{
    let depth = MAX_DEPTH as nat;
    let whole = with_all(m, all.take(n as int));
    if n == 0 {
        assert(all.take(0) =~= Seq::<Attribute>::empty());
        all.take(0).to_multiset_ensures();
        assert(all.take(0).to_multiset() =~= Multiset::<Attribute>::empty());
        assert(whole =~= m);
    } else {
        let k = (n - 1) as nat;
        let a = all[n - 1];
        let more = with(m, a);
        lemma_taken(content, shape, all, k, more, e);
        let front = all.take(k as int);
        assert(all.take(n as int) =~= front.push(a));
        front.to_multiset_ensures();
        assert(all.take(n as int).to_multiset() =~= front.to_multiset().insert(a));
        assert(whole =~= with_all(more, front));
        match taken_attributes(content, all, k, e.context, e.defs, e.registry) {
            Some(p) => {
                law_attributes_are_taken_at_any_position(
                    p,
                    a.0,
                    a.1,
                    e.defs,
                    e.registry,
                    e.context,
                    depth,
                );
                lemma_attribute_grounded(p, a.0, a.1, e.defs, e.registry, e.context, depth);
                lemma_attribute_shaped(
                    p,
                    a.0,
                    a.1,
                    shape,
                    e.defs,
                    e.registry,
                    e.context,
                    depth,
                );
                lemma_attribute_apart(
                    p,
                    shape,
                    a.0,
                    a.1,
                    e.defs,
                    e.registry,
                    e.context,
                    depth,
                );
                law_attribute_derivative_leaves_the_rest(p, shape, a, m, e, depth);
                let left = left_after(p, a, e, depth);
                assert(left is NotAllowed ==> !meets(left, m, e, depth));
            },
            None => {},
        }
    }
}

// ---------------------------------------------------------------------
// Children, one after the other
// ---------------------------------------------------------------------

/// The first `n` children as they are taken. Text of nothing but white space that cannot be
/// taken is left out where no text is wanted.
pub open spec fn as_taken(
    p: PatternModel,
    children: Seq<ContentModel>,
    n: nat,
    bindings: Bindings,
    defs: Defs,
    registry: RegistryModel,
) -> Word
    decreases n,
{
    if n == 0 || n > children.len() {
        Seq::empty()
    } else {
        let before = as_taken(p, children, (n - 1) as nat, bindings, defs, registry);
        match children[n - 1] {
            ContentModel::Element(child) => before.push(child_event(child, defs, registry)),
            ContentModel::Text(text) => {
                let here = remaining(p, before, defs, MAX_DEPTH as nat);
                let child = text_child(text, bindings, defs, registry);
                if blank(text) && child_derivative(here, child, defs, MAX_DEPTH as nat) is NotAllowed
                    && !expects_text(here, defs, MAX_DEPTH as nat) {
                    before
                } else {
                    before.push(child)
                }
            },
        }
    }
}

/// The first `n` children, elements and text.
pub open spec fn sequence(
    children: Seq<ContentModel>,
    n: nat,
    bindings: Bindings,
    defs: Defs,
    registry: RegistryModel,
) -> Word
    decreases n,
{
    if n == 0 || n > children.len() {
        Seq::empty()
    } else {
        sequence(children, (n - 1) as nat, bindings, defs, registry).push(
            match children[n - 1] {
                ContentModel::Element(child) => child_event(child, defs, registry),
                ContentModel::Text(text) => text_child(text, bindings, defs, registry),
            },
        )
    }
}

/// The elements among the first `n` children.
pub open spec fn elements(
    children: Seq<ContentModel>,
    n: nat,
    defs: Defs,
    registry: RegistryModel,
) -> Word
    decreases n,
{
    if n == 0 || n > children.len() {
        Seq::empty()
    } else {
        let before = elements(children, (n - 1) as nat, defs, registry);
        match children[n - 1] {
            ContentModel::Element(child) => before.push(child_event(child, defs, registry)),
            ContentModel::Text(_) => before,
        }
    }
}

/// Whether there is no text among the children but white space.
pub open spec fn only_blank_text(children: Seq<ContentModel>) -> bool {
    forall|i: int|
        0 <= i < children.len() ==> match #[trigger] children[i] {
            ContentModel::Element(_) => true,
            ContentModel::Text(text) => blank(text),
        }
}

/// Whether there is no text of nothing but white space among the children.
pub open spec fn no_blank_text(children: Seq<ContentModel>) -> bool {
    forall|i: int|
        0 <= i < children.len() ==> match #[trigger] children[i] {
            ContentModel::Element(_) => true,
            ContentModel::Text(text) => !blank(text),
        }
}

/// What is left after one more child.
pub proof fn lemma_remaining_push(p: PatternModel, w: Word, child: Child, defs: Defs, depth: nat)
    ensures
        remaining(p, w.push(child), defs, depth) == child_derivative(
            remaining(p, w, defs, depth),
            child,
            defs,
            depth,
        ),
    decreases w.len(),
{
    let all = w.push(child);
    if w.len() == 0 {
        let next = child_derivative(p, child, defs, depth);
        assert(all[0] == child);
        assert(all.drop_first().len() == 0);
        assert(remaining(next, all.drop_first(), defs, depth) == next);
    } else {
        assert(all[0] == w[0]);
        assert(all.drop_first() =~= w.drop_first().push(child));
        lemma_remaining_push(
            child_derivative(p, w[0], defs, depth),
            w.drop_first(),
            child,
            defs,
            depth,
        );
    }
}

/// What is left after children is in form, comes to an end, and has its data apart; after any
/// child it is settled.
proof fn lemma_remaining(p: PatternModel, w: Word, defs: Defs, depth: nat)
    requires
        data_apart(p, defs),
        grounded(p, defs, depth),
        in_form(p, false),
        defs_in_form(defs),
    ensures
        w.len() > 0 ==> settled(remaining(p, w, defs, depth), defs),
        data_apart(remaining(p, w, defs, depth), defs),
        grounded(remaining(p, w, defs, depth), defs, depth),
        in_form(remaining(p, w, defs, depth), false),
    decreases w.len(),
{
    if w.len() > 0 {
        let next = child_derivative(p, w[0], defs, depth);
        lemma_child_apart(p, w[0], defs, depth);
        lemma_child_grounded(p, w[0], defs, depth);
        lemma_left_in_form(p, w[0], defs, depth);
        lemma_remaining(next, w.drop_first(), defs, depth);
        if w.len() == 1 {
            assert(remaining(next, w.drop_first(), defs, depth) == next);
        }
    }
}

/// What is left after children is in form and of the same shape.
proof fn lemma_remaining_shaped(p: PatternModel, shape: Shape, w: Word, defs: Defs, depth: nat)
    requires
        shaped(p, shape, defs),
        in_form(p, false),
        defs_in_form(defs),
    ensures
        shaped(remaining(p, w, defs, depth), shape, defs),
        in_form(remaining(p, w, defs, depth), false),
    decreases w.len(),
{
    if w.len() > 0 {
        lemma_child_shaped(p, w[0], shape, defs, depth);
        lemma_left_in_form(p, w[0], defs, depth);
        lemma_remaining_shaped(
            child_derivative(p, w[0], defs, depth),
            shape,
            w.drop_first(),
            defs,
            depth,
        );
    }
}

/// What is left after the first `n` children, where each fits, is what is left after them as
/// they are taken, and where one does not fit nothing is left.
proof fn lemma_children(
    p: PatternModel,
    children: Seq<ContentModel>,
    n: nat,
    bindings: Bindings,
    defs: Defs,
    registry: RegistryModel,
)
    requires
        n <= children.len(),
        data_apart(p, defs),
        grounded(p, defs, MAX_DEPTH as nat),
        in_form(p, false),
        defs_in_form(defs),
    ensures
        ({
            let w = as_taken(p, children, n, bindings, defs, registry);
            let left = remaining(p, w, defs, MAX_DEPTH as nat);
            match taken_children(p, children, n, bindings, defs, registry) {
                Some(q) => q == left,
                None => left is NotAllowed,
            }
        }),
    decreases n,
{
    if n > 0 {
        let m = (n - 1) as nat;
        let depth = MAX_DEPTH as nat;
        lemma_children(p, children, m, bindings, defs, registry);
        let before = as_taken(p, children, m, bindings, defs, registry);
        let here = remaining(p, before, defs, depth);
        match children[n - 1] {
            ContentModel::Text(text) => {
                let child = text_child(text, bindings, defs, registry);
                lemma_remaining_push(p, before, child, defs, depth);
                lemma_remaining(p, before, defs, depth);
                lemma_text(here, text, defs, registry, bindings, depth);
            },
            ContentModel::Element(child) => {
                lemma_remaining_push(p, before, child_event(child, defs, registry), defs, depth);
            },
        }
    }
}

/// Where no text is blank, the children are taken as they are.
proof fn lemma_all_taken(
    p: PatternModel,
    children: Seq<ContentModel>,
    n: nat,
    bindings: Bindings,
    defs: Defs,
    registry: RegistryModel,
)
    requires
        n <= children.len(),
        no_blank_text(children),
    ensures
        as_taken(p, children, n, bindings, defs, registry) == sequence(
            children,
            n,
            bindings,
            defs,
            registry,
        ),
    decreases n,
{
    if n > 0 {
        lemma_all_taken(p, children, (n - 1) as nat, bindings, defs, registry);
        assert(match children[n - 1] {
            ContentModel::Element(_) => true,
            ContentModel::Text(text) => !blank(text),
        });
    }
}

/// Where the content model has neither text nor data, only its elements are taken of
/// children whose text is blank, and nothing is left where other text is among them.
proof fn lemma_elements_taken(
    p: PatternModel,
    shape: Shape,
    children: Seq<ContentModel>,
    n: nat,
    bindings: Bindings,
    defs: Defs,
    registry: RegistryModel,
)
    requires
        n <= children.len(),
        !shape.text,
        !shape.data,
        shaped(p, shape, defs),
        in_form(p, false),
        defs_in_form(defs),
    ensures
        ({
            let w = as_taken(p, children, n, bindings, defs, registry);
            if forall|i: int|
                0 <= i < n ==> match #[trigger] children[i] {
                    ContentModel::Element(_) => true,
                    ContentModel::Text(text) => blank(text),
                } {
                w == elements(children, n, defs, registry)
            } else {
                remaining(p, w, defs, MAX_DEPTH as nat) is NotAllowed
            }
        }),
    decreases n,
{
    if n > 0 {
        let m = (n - 1) as nat;
        let depth = MAX_DEPTH as nat;
        lemma_elements_taken(p, shape, children, m, bindings, defs, registry);
        let before = as_taken(p, children, m, bindings, defs, registry);
        let here = remaining(p, before, defs, depth);
        lemma_remaining_shaped(p, shape, before, defs, depth);
        assert(shaped_within(here, shape, defs, depth));
        match children[n - 1] {
            ContentModel::Text(text) => {
                let child = text_child(text, bindings, defs, registry);
                lemma_textless(here, shape, child, defs, depth);
                lemma_remaining_push(p, before, child, defs, depth);
            },
            ContentModel::Element(child) => {
                lemma_remaining_push(p, before, child_event(child, defs, registry), defs, depth);
            },
        }
    }
}

// ---------------------------------------------------------------------
// What it comes to
// ---------------------------------------------------------------------

/// An element's attributes, with the given children.
pub open spec fn having(element: ElementModel, children: Word) -> Given {
    Given { attributes: element.attributes.to_multiset(), children }
}

/// What the meaning of an element's attributes depends on.
pub open spec fn setting(element: ElementModel, defs: Defs, registry: RegistryModel) -> Setting {
    Setting { defs, registry, context: element.bindings }
}

/// Whether a content model keeps to what schemas are held to: it is of the forms that a
/// composed schema has, its references come to an end, no repeated group or interleave of it
/// holds an attribute, and its data stands apart.
pub open spec fn orderly(content: PatternModel, shape: Shape, defs: Defs) -> bool {
    &&& in_form(content, false)
    &&& defs_in_form(defs)
    &&& grounded(content, defs, MAX_DEPTH as nat)
    &&& shaped(content, shape, defs)
    &&& data_apart(content, defs)
}

/// The attributes of an element in order are its attributes.
pub proof fn lemma_ordered(element: ElementModel, m: Given)
    requires
        m.attributes == Multiset::<Attribute>::empty(),
    ensures
        ({
            let all = in_order(element.attributes);
            with_all(m, all.take(all.len() as int)) == having(element, m.children)
        }),
{
    let all = in_order(element.attributes);
    lemma_total();
    element.attributes.lemma_sort_by_ensures(by_name());
    assert(all.take(all.len() as int) =~= all);
    assert(with_all(m, all) =~= having(element, m.children));
}

/// An element is valid exactly where its attributes fit and its content model describes them
/// together with its children as they are taken. Only text of nothing but white space is ever
/// left out of these.
pub proof fn law_valid_elements_match_their_content(
    content: PatternModel,
    shape: Shape,
    element: ElementModel,
    defs: Defs,
    registry: RegistryModel,
)
    requires
        orderly(content, shape, defs),
    ensures
        ({
            let all = in_order(element.attributes);
            let children = element.children;
            let bindings = element.bindings;
            is_valid(content, element, defs, registry) <==> match taken_attributes(
                content,
                all,
                all.len(),
                bindings,
                defs,
                registry,
            ) {
                Some(p) => meets(
                    content,
                    having(
                        element,
                        as_taken(p, children, children.len(), bindings, defs, registry),
                    ),
                    setting(element, defs, registry),
                    MAX_DEPTH as nat,
                ),
                None => false,
            }
        }),
{
    let all = in_order(element.attributes);
    let depth = MAX_DEPTH as nat;
    let e = setting(element, defs, registry);
    let n = element.children.len();
    lemma_taken(content, shape, all, all.len(), nothing(), e);
    match taken_attributes(content, all, all.len(), element.bindings, defs, registry) {
        Some(p) => {
            let w = as_taken(p, element.children, n, element.bindings, defs, registry);
            lemma_taken(content, shape, all, all.len(), only(w), e);
            lemma_ordered(element, only(w));
            lemma_children(p, element.children, n, element.bindings, defs, registry);
            lemma_recognized(p, w, e, depth);
        },
        None => {},
    }
}

/// Where no text among its children is blank, an element is valid exactly where its content
/// model describes its attributes, in whatever order, together with its children, in their
/// order.
pub proof fn law_valid_content_is_accepted_content(
    content: PatternModel,
    shape: Shape,
    element: ElementModel,
    defs: Defs,
    registry: RegistryModel,
)
    requires
        orderly(content, shape, defs),
        no_blank_text(element.children),
    ensures
        ({
            let children = element.children;
            is_valid(content, element, defs, registry) <==> meets(
                content,
                having(
                    element,
                    sequence(children, children.len(), element.bindings, defs, registry),
                ),
                setting(element, defs, registry),
                MAX_DEPTH as nat,
            )
        }),
{
    let all = in_order(element.attributes);
    let e = setting(element, defs, registry);
    let n = element.children.len();
    let w = sequence(element.children, n, element.bindings, defs, registry);
    law_valid_elements_match_their_content(content, shape, element, defs, registry);
    lemma_taken(content, shape, all, all.len(), only(w), e);
    lemma_ordered(element, only(w));
    match taken_attributes(content, all, all.len(), element.bindings, defs, registry) {
        Some(p) => {
            lemma_all_taken(p, element.children, n, element.bindings, defs, registry);
        },
        None => {},
    }
}

/// Where the content model holds neither text nor data, an element is valid exactly where it
/// has no text but white space, and the content model describes its attributes, in whatever
/// order, together with the elements among its children, in their order.
pub proof fn law_blank_text_does_not_matter(
    content: PatternModel,
    shape: Shape,
    element: ElementModel,
    defs: Defs,
    registry: RegistryModel,
)
    requires
        orderly(content, shape, defs),
        !shape.text,
        !shape.data,
    ensures
        is_valid(content, element, defs, registry) <==> only_blank_text(element.children) && meets(
            content,
            having(
                element,
                elements(element.children, element.children.len(), defs, registry),
            ),
            setting(element, defs, registry),
            MAX_DEPTH as nat,
        ),
{
    let all = in_order(element.attributes);
    let depth = MAX_DEPTH as nat;
    let e = setting(element, defs, registry);
    let n = element.children.len();
    let w = elements(element.children, n, defs, registry);
    law_valid_elements_match_their_content(content, shape, element, defs, registry);
    lemma_taken(content, shape, all, all.len(), only(w), e);
    lemma_ordered(element, only(w));
    match taken_attributes(content, all, all.len(), element.bindings, defs, registry) {
        Some(p) => {
            let taken = as_taken(p, element.children, n, element.bindings, defs, registry);
            lemma_elements_taken(
                p,
                shape,
                element.children,
                n,
                element.bindings,
                defs,
                registry,
            );
            if !only_blank_text(element.children) {
                lemma_taken(content, shape, all, all.len(), only(taken), e);
                lemma_ordered(element, only(taken));
                lemma_recognized(p, taken, e, depth);
            }
        },
        None => {},
    }
}

} // verus!
