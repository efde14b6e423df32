//! What an element must have to match a content model, its attributes and its children
//! together, and that the derivatives with respect to attributes leave just what must come
//! with them.
use vstd::multiset::Multiset;
use vstd::prelude::*;

use crate::algebra::{
    choice_of, group_of, interleave_of, lemma_without_members, lemma_without_push, without,
    without_identity,
};
use crate::attribute_order::Attribute;
use crate::datatypes::registry::{Bindings, RegistryModel};
use crate::derivative::{
    all_nullable, alternatives, attribute_derivative, attribute_derivatives, branch_at, contained,
    is_nullable, repetition_derivative, some_nullable, value_fits, Child, Container, Defs,
};
use crate::grammar::{NameModel, PatternModel};
use crate::grounded::{
    all_grounded, grounded, lemma_attribute_grounded, lemma_nullable_steady, lemma_value_steady,
};
use crate::language::{
    joins, lemma_join_nothing, lemma_join_to_nothing, positive, within, Word,
};
use crate::name_class::holds_name;
use crate::shapes::{
    all_attribute_free, all_attributes_apart, attribute_free, attributes_apart, lemma_operands,
    lemma_target, shaped, shaped_within, Shape,
};
use crate::string_map::{has_key, lookup};

verus! {

/// Attributes, in no order.
pub type Bag = Multiset<Attribute>;

/// What an element has: attributes, in no order, and children, in order.
#[verifier::ext_equal]
pub struct Given {
    pub attributes: Bag,
    pub children: Word,
}

/// What the meaning of an attribute depends on besides the pattern: the named patterns, the
/// datatypes, and the namespace bindings of the element that it stands on.
pub struct Setting {
    pub defs: Defs,
    pub registry: RegistryModel,
    pub context: Bindings,
}

// ---------------------------------------------------------------------
// What matches
// ---------------------------------------------------------------------

/// Neither attributes nor children.
pub open spec fn nothing() -> Given {
    Given { attributes: Multiset::empty(), children: Seq::empty() }
}

/// The same with one more attribute.
pub open spec fn with(m: Given, a: Attribute) -> Given {
    Given { attributes: m.attributes.insert(a), children: m.children }
}

/// The same with one attribute less.
pub open spec fn less(m: Given, a: Attribute) -> Given {
    Given { attributes: m.attributes.remove(a), children: m.children }
}

/// Whether there is one attribute, the given one, and no child.
pub open spec fn alone(m: Given, a: Attribute) -> bool {
    m.attributes == Multiset::singleton(a) && m.children.len() == 0
}

/// Whether what is given is made of two shares: of the attributes in any way, and of the
/// children one after the other, where there is an order, or else merged.
pub open spec fn makes(ordered: bool, a: Given, b: Given, m: Given) -> bool {
    m.attributes == a.attributes.add(b.attributes) && joins(
        ordered,
        a.children,
        b.children,
        m.children,
    )
}

/// Whether there is one attribute, and an attribute pattern allows its name and its value.
pub open spec fn one_fits(
    class: NameModel,
    body: Seq<PatternModel>,
    m: Given,
    e: Setting,
    depth: nat,
) -> bool {
    exists|a: Attribute| #[trigger]
        alone(m, a) && holds_name(class, a.0.namespace, a.0.local) && body.len() > 0
            && value_fits(body[0], a.1, e.defs, e.registry, e.context, depth)
}

/// Whether attributes and children, all of them and no others, are what a pattern describes,
/// where references are followed to the given depth.
pub open spec fn meets(p: PatternModel, m: Given, e: Setting, depth: nat) -> bool
    decreases depth, p, 0nat, 0nat,
{
    match p {
        PatternModel::Attribute { name, body, context } => one_fits(name, body, m, e, depth),
        PatternModel::Group(values) => shared(true, values, values.len(), m, e, depth),
        PatternModel::Interleave(values) => shared(false, values, values.len(), m, e, depth),
        PatternModel::Choice(values) => some_meet(values, m, e, depth),
        PatternModel::OneOrMore(values) => values.len() > 0 && some_repeated(
            values[0],
            m,
            e,
            depth,
        ),
        PatternModel::Ref(name) => depth > 0 && (match lookup(e.defs, name) {
            Some(target) => meets(target, m, e, (depth - 1) as nat),
            None => false,
        }),
        _ => m.attributes == Multiset::<Attribute>::empty() && if m.children.len() == 0 {
            is_nullable(p, e.defs, e.registry, depth)
        } else {
            within(p, m.children, e.defs, depth)
        },
    }
}

/// Whether attributes and children are what some pattern describes.
pub open spec fn some_meet(s: Seq<PatternModel>, m: Given, e: Setting, depth: nat) -> bool
    decreases depth, s, 0nat, 0nat,
{
    exists|i: int| 0 <= i < s.len() && meets(#[trigger] s[i], m, e, depth)
}

/// Whether attributes and children are made of what the first `n` patterns describe, one
/// share each.
pub open spec fn shared(
    ordered: bool,
    s: Seq<PatternModel>,
    n: nat,
    m: Given,
    e: Setting,
    depth: nat,
) -> bool
    decreases depth, s, n, 1nat,
{
    if n == 0 || n > s.len() {
        m == nothing()
    } else {
        last_share(ordered, s, n, m, e, depth)
    }
}

/// Whether attributes and children are made of what the last of the first `n` patterns
/// describes and of what the others do.
pub open spec fn last_share(
    ordered: bool,
    s: Seq<PatternModel>,
    n: nat,
    m: Given,
    e: Setting,
    depth: nat,
) -> bool
    decreases depth, s, n, 0nat,
{
    exists|a: Given, b: Given|
        #[trigger] makes(ordered, a, b, m) && 0 < n <= s.len() && shared(
            ordered,
            s,
            (n - 1) as nat,
            a,
            e,
            depth,
        ) && meets(s[n - 1], b, e, depth)
}

/// Whether attributes and children are made of one or more shares that a pattern describes.
pub open spec fn some_repeated(p: PatternModel, m: Given, e: Setting, depth: nat) -> bool
    decreases depth, p, 2nat, 0nat,
{
    exists|k: nat| #[trigger] positive(k) && repeated(p, k, m, e, depth)
}

/// Whether attributes and children are made of the given number of shares that a pattern
/// describes.
pub open spec fn repeated(p: PatternModel, k: nat, m: Given, e: Setting, depth: nat) -> bool
    decreases depth, p, 1nat, 2 * k + 1,
{
    if k == 0 {
        m == nothing()
    } else {
        last_repeated(p, k, m, e, depth)
    }
}

/// Whether attributes and children are made of a share that a pattern describes, last, and
/// of one less of them.
pub open spec fn last_repeated(p: PatternModel, k: nat, m: Given, e: Setting, depth: nat) -> bool
    decreases depth, p, 1nat, 2 * k,
{
    exists|a: Given, b: Given|
        #[trigger] makes(true, a, b, m) && k > 0 && repeated(p, (k - 1) as nat, a, e, depth)
            && meets(p, b, e, depth)
}

// ---------------------------------------------------------------------
// Shares
// ---------------------------------------------------------------------

/// Nothing adds nothing.
proof fn lemma_nothing_added(ordered: bool, m: Given, w: Given)
    ensures
        makes(ordered, nothing(), m, w) <==> m == w,
        makes(ordered, m, nothing(), w) <==> m == w,
{
    lemma_join_nothing(ordered, m.children, w.children);
    assert(Multiset::<Attribute>::empty().add(m.attributes) =~= m.attributes);
    assert(m.attributes.add(Multiset::<Attribute>::empty()) =~= m.attributes);
}

/// Only nothing makes nothing.
proof fn lemma_nothing_made(ordered: bool, a: Given, b: Given)
    requires
        makes(ordered, a, b, nothing()),
    ensures
        a == nothing(),
        b == nothing(),
{
    let none = Multiset::<Attribute>::empty();
    assert forall|x: Attribute| #[trigger]
        a.attributes.count(x) == 0 && b.attributes.count(x) == 0 by {
        assert(a.attributes.add(b.attributes).count(x) == a.attributes.count(x)
            + b.attributes.count(x));
        assert(none.count(x) == 0);
    }
    assert(a.attributes =~= none);
    assert(b.attributes =~= none);
    lemma_join_to_nothing(ordered, a.children, b.children);
    assert(a =~= nothing());
    assert(b =~= nothing());
}

/// One more attribute is not nothing.
proof fn lemma_with(m: Given, a: Attribute)
    ensures
        with(m, a) != nothing(),
        with(m, a).attributes != Multiset::<Attribute>::empty(),
        with(m, a).attributes.count(a) == m.attributes.count(a) + 1,
{
    assert(m.attributes.insert(a).count(a) == m.attributes.count(a) + 1);
    assert(Multiset::<Attribute>::empty().count(a) == 0);
}

/// The shares that are made up.
pub proof fn lemma_shares(
    ordered: bool,
    s: Seq<PatternModel>,
    n: nat,
    m: Given,
    e: Setting,
    depth: nat,
) -> (r: (Given, Given))
    requires
        0 < n <= s.len(),
        shared(ordered, s, n, m, e, depth),
    ensures
        makes(ordered, r.0, r.1, m),
        shared(ordered, s, (n - 1) as nat, r.0, e, depth),
        meets(s[n - 1], r.1, e, depth),
{
    assert(last_share(ordered, s, n, m, e, depth));
    choose|a: Given, b: Given|
        #[trigger] makes(ordered, a, b, m) && shared(ordered, s, (n - 1) as nat, a, e, depth)
            && meets(s[n - 1], b, e, depth)
}

/// What is made of its shares.
pub proof fn lemma_sharing(
    ordered: bool,
    s: Seq<PatternModel>,
    n: nat,
    a: Given,
    b: Given,
    m: Given,
    e: Setting,
    depth: nat,
)
    requires
        0 < n <= s.len(),
        makes(ordered, a, b, m),
        shared(ordered, s, (n - 1) as nat, a, e, depth),
        meets(s[n - 1], b, e, depth),
    ensures
        shared(ordered, s, n, m, e, depth),
{
    assert(makes(ordered, a, b, m));
    assert(last_share(ordered, s, n, m, e, depth));
}

/// The last share of a repetition.
pub proof fn lemma_last_repeated(p: PatternModel, k: nat, m: Given, e: Setting, depth: nat) -> (r: (
    Given,
    Given,
))
    requires
        k > 0,
        repeated(p, k, m, e, depth),
    ensures
        makes(true, r.0, r.1, m),
        repeated(p, (k - 1) as nat, r.0, e, depth),
        meets(p, r.1, e, depth),
{
    assert(last_repeated(p, k, m, e, depth));
    choose|a: Given, b: Given|
        #[trigger] makes(true, a, b, m) && repeated(p, (k - 1) as nat, a, e, depth) && meets(
            p,
            b,
            e,
            depth,
        )
}

/// One more share of a repetition, at the end.
pub proof fn lemma_repeated_more(
    p: PatternModel,
    k: nat,
    a: Given,
    b: Given,
    m: Given,
    e: Setting,
    depth: nat,
)
    requires
        k > 0,
        makes(true, a, b, m),
        repeated(p, (k - 1) as nat, a, e, depth),
        meets(p, b, e, depth),
    ensures
        repeated(p, k, m, e, depth),
{
    assert(makes(true, a, b, m));
    assert(last_repeated(p, k, m, e, depth));
}

/// One more share of a repetition, at the start.
proof fn lemma_repeated_first(
    p: PatternModel,
    k: nat,
    a: Given,
    b: Given,
    m: Given,
    e: Setting,
    depth: nat,
)
    requires
        makes(true, a, b, m),
        meets(p, a, e, depth),
        repeated(p, k, b, e, depth),
    ensures
        repeated(p, k + 1, m, e, depth),
    decreases k,
{
    if k == 0 {
        lemma_nothing_added(true, a, m);
        assert(repeated(p, 0, nothing(), e, depth));
        lemma_repeated_more(p, 1, nothing(), a, m, e, depth);
    } else {
        let (x, y) = lemma_last_repeated(p, k, b, e, depth);
        let front = Given {
            attributes: a.attributes.add(x.attributes),
            children: a.children + x.children,
        };
        assert(makes(true, a, x, front));
        lemma_repeated_first(p, (k - 1) as nat, a, x, front, e, depth);
        assert(a.attributes.add(x.attributes.add(y.attributes)) =~= front.attributes.add(
            y.attributes,
        ));
        assert(a.children + (x.children + y.children) =~= front.children + y.children);
        assert(makes(true, front, y, m));
        lemma_repeated_more(p, k + 1, front, y, m, e, depth);
    }
}

/// Only the first `n` patterns count.
proof fn lemma_prefix_shared(
    ordered: bool,
    s: Seq<PatternModel>,
    t: Seq<PatternModel>,
    n: nat,
    m: Given,
    e: Setting,
    depth: nat,
)
    requires
        n <= s.len(),
        n <= t.len(),
        forall|i: int| 0 <= i < n ==> #[trigger] s[i] == t[i],
        shared(ordered, s, n, m, e, depth),
    ensures
        shared(ordered, t, n, m, e, depth),
    decreases n,
{
    if n > 0 {
        let (a, b) = lemma_shares(ordered, s, n, m, e, depth);
        lemma_prefix_shared(ordered, s, t, (n - 1) as nat, a, e, depth);
        assert(s[n - 1] == t[n - 1]);
        lemma_sharing(ordered, t, n, a, b, m, e, depth);
    }
}

/// One pattern describes what it describes.
pub proof fn lemma_one_share(ordered: bool, s: Seq<PatternModel>, m: Given, e: Setting, depth: nat)
    requires
        s.len() > 0,
    ensures
        shared(ordered, s, 1, m, e, depth) <==> meets(s[0], m, e, depth),
{
    if shared(ordered, s, 1, m, e, depth) {
        let (a, b) = lemma_shares(ordered, s, 1, m, e, depth);
        assert(a == nothing());
        lemma_nothing_added(ordered, b, m);
    }
    if meets(s[0], m, e, depth) {
        lemma_nothing_added(ordered, m, m);
        assert(shared(ordered, s, 0, nothing(), e, depth));
        lemma_sharing(ordered, s, 1, nothing(), m, m, e, depth);
    }
}

/// Each pattern describes its share.
proof fn lemma_each_share(
    ordered: bool,
    s: Seq<PatternModel>,
    n: nat,
    m: Given,
    e: Setting,
    depth: nat,
    k: int,
) -> (b: Given)
    requires
        0 <= k < n <= s.len(),
        shared(ordered, s, n, m, e, depth),
    ensures
        meets(s[k], b, e, depth),
    decreases n,
{
    let (a, b) = lemma_shares(ordered, s, n, m, e, depth);
    if k == n - 1 {
        b
    } else {
        lemma_each_share(ordered, s, (n - 1) as nat, a, e, depth, k)
    }
}

/// Only nothing is what `empty` describes.
pub proof fn lemma_empty(m: Given, e: Setting, depth: nat)
    ensures
        meets(PatternModel::Empty, m, e, depth) <==> m == nothing(),
{
    if meets(PatternModel::Empty, m, e, depth) {
        assert(m =~= nothing());
    }
}

/// Patterns that describe nothing at all can be left out.
proof fn lemma_without_empty_shared(
    ordered: bool,
    s: Seq<PatternModel>,
    m: Given,
    e: Setting,
    depth: nat,
)
    ensures
        shared(ordered, s, s.len(), m, e, depth) <==> shared(
            ordered,
            without(s, PatternModel::Empty),
            without(s, PatternModel::Empty).len(),
            m,
            e,
            depth,
        ),
    decreases s.len(),
{
    let empty = PatternModel::Empty;
    if s.len() > 0 {
        let front = s.drop_last();
        let last = s.last();
        let n = s.len();
        let rest = without(front, empty);
        let all = without(s, empty);
        assert(s =~= front.push(last));
        lemma_without_push(front, last, empty);
        if shared(ordered, s, n, m, e, depth) {
            let (a, b) = lemma_shares(ordered, s, n, m, e, depth);
            lemma_prefix_shared(ordered, s, front, (n - 1) as nat, a, e, depth);
            lemma_without_empty_shared(ordered, front, a, e, depth);
            if last == empty {
                lemma_empty(b, e, depth);
                lemma_nothing_added(ordered, a, m);
            } else {
                lemma_prefix_shared(ordered, rest, all, rest.len(), a, e, depth);
                lemma_sharing(ordered, all, all.len(), a, b, m, e, depth);
            }
        }
        if shared(ordered, all, all.len(), m, e, depth) {
            if last == empty {
                lemma_without_empty_shared(ordered, front, m, e, depth);
                lemma_prefix_shared(ordered, front, s, front.len(), m, e, depth);
                lemma_nothing_added(ordered, m, m);
                lemma_empty(nothing(), e, depth);
                lemma_sharing(ordered, s, n, m, nothing(), m, e, depth);
            } else {
                let (a, b) = lemma_shares(ordered, all, all.len(), m, e, depth);
                lemma_prefix_shared(ordered, all, rest, rest.len(), a, e, depth);
                lemma_without_empty_shared(ordered, front, a, e, depth);
                lemma_prefix_shared(ordered, front, s, front.len(), a, e, depth);
                lemma_sharing(ordered, s, n, a, b, m, e, depth);
            }
        }
    }
}

/// The container of an order.
pub open spec fn in_container(ordered: bool, s: Seq<PatternModel>) -> PatternModel {
    if ordered {
        group_of(s)
    } else {
        interleave_of(s)
    }
}

/// What a group or an interleave amounts to describes what is made of shares that its
/// patterns describe.
pub proof fn lemma_containers(ordered: bool, s: Seq<PatternModel>, m: Given, e: Setting, depth: nat)
    ensures
        meets(in_container(ordered, s), m, e, depth) <==> shared(
            ordered,
            s,
            s.len(),
            m,
            e,
            depth,
        ),
{
    let no = PatternModel::NotAllowed;
    if s.contains(no) {
        if shared(ordered, s, s.len(), m, e, depth) {
            let k = choose|k: int| 0 <= k < s.len() && s[k] == no;
            let b = lemma_each_share(ordered, s, s.len(), m, e, depth, k);
            assert(!meets(no, b, e, depth));
        }
    } else {
        let rest = without_identity(s);
        if s.len() > 1 {
            lemma_without_empty_shared(ordered, s, m, e, depth);
        }
        if rest.len() == 0 {
            lemma_empty(m, e, depth);
            assert(shared(ordered, rest, 0, m, e, depth) == (m == nothing()));
        } else if rest.len() == 1 {
            lemma_one_share(ordered, rest, m, e, depth);
        }
    }
}

/// What a choice amounts to describes what one of its patterns does.
pub proof fn lemma_choice(s: Seq<PatternModel>, m: Given, e: Setting, depth: nat)
    ensures
        meets(choice_of(s), m, e, depth) <==> some_meet(s, m, e, depth),
{
    let n = PatternModel::NotAllowed;
    lemma_without_members(s, n);
    let rest = without(s, n);
    if some_meet(s, m, e, depth) {
        let i = choose|i: int| 0 <= i < s.len() && meets(#[trigger] s[i], m, e, depth);
        assert(s.contains(s[i]));
        assert(s[i] != n);
        assert(rest.contains(s[i]));
        let j = choose|j: int| 0 <= j < rest.len() && rest[j] == s[i];
        assert(meets(rest[j], m, e, depth));
        assert(some_meet(rest, m, e, depth));
    }
    if meets(choice_of(s), m, e, depth) {
        assert(rest.len() > 0);
        let j = if rest.len() == 1 {
            0
        } else {
            assert(some_meet(rest, m, e, depth));
            choose|j: int| 0 <= j < rest.len() && meets(#[trigger] rest[j], m, e, depth)
        };
        assert(rest.contains(rest[j]));
        assert(rest[j] != n);
        assert(s.contains(rest[j]));
        let i = choose|i: int| 0 <= i < s.len() && s[i] == rest[j];
        assert(meets(s[i], m, e, depth));
    }
}

// ---------------------------------------------------------------------
// The depth does not matter
// ---------------------------------------------------------------------

/// What a grounded pattern describes does not depend on the depth.
pub proof fn lemma_meets_steady(p: PatternModel, m: Given, e: Setting, depth: nat, more: nat)
    requires
        grounded(p, e.defs, depth),
        depth <= more,
    ensures
        meets(p, m, e, depth) == meets(p, m, e, more),
    decreases depth, p, 0nat, 0nat,
{
    match p {
        PatternModel::Attribute { name, body, context } => {
            if body.len() > 0 {
                assert(all_grounded(body, e.defs, depth));
                assert forall|a: Attribute| #[trigger] alone(m, a) implies value_fits(
                    body[0],
                    a.1,
                    e.defs,
                    e.registry,
                    e.context,
                    depth,
                ) == value_fits(body[0], a.1, e.defs, e.registry, e.context, more) by {
                    lemma_value_steady(
                        body[0],
                        a.1,
                        e.defs,
                        e.registry,
                        e.context,
                        depth,
                        more,
                    );
                }
            }
            assert(one_fits(name, body, m, e, depth) == one_fits(name, body, m, e, more));
        },
        PatternModel::Group(values) => {
            lemma_shared_steady(true, values, values.len(), m, e, depth, more);
        },
        PatternModel::Interleave(values) => {
            lemma_shared_steady(false, values, values.len(), m, e, depth, more);
        },
        PatternModel::Choice(values) => {
            assert(all_grounded(values, e.defs, depth));
            if some_meet(values, m, e, depth) {
                let i = choose|i: int|
                    0 <= i < values.len() && meets(#[trigger] values[i], m, e, depth);
                lemma_meets_steady(values[i], m, e, depth, more);
                assert(some_meet(values, m, e, more));
            }
            if some_meet(values, m, e, more) {
                let i = choose|i: int|
                    0 <= i < values.len() && meets(#[trigger] values[i], m, e, more);
                lemma_meets_steady(values[i], m, e, depth, more);
                assert(some_meet(values, m, e, depth));
            }
        },
        PatternModel::OneOrMore(values) => {
            assert(all_grounded(values, e.defs, depth));
            if values.len() > 0 {
                if some_repeated(values[0], m, e, depth) {
                    let k = choose|k: nat| #[trigger]
                        positive(k) && repeated(values[0], k, m, e, depth);
                    lemma_repeated_steady(values[0], k, m, e, depth, more);
                    assert(positive(k));
                    assert(some_repeated(values[0], m, e, more));
                }
                if some_repeated(values[0], m, e, more) {
                    let k = choose|k: nat| #[trigger]
                        positive(k) && repeated(values[0], k, m, e, more);
                    lemma_repeated_steady(values[0], k, m, e, depth, more);
                    assert(positive(k));
                    assert(some_repeated(values[0], m, e, depth));
                }
            }
        },
        PatternModel::Ref(name) => {
            match lookup(e.defs, name) {
                Some(target) => {
                    lemma_meets_steady(target, m, e, (depth - 1) as nat, (more - 1) as nat);
                },
                None => {},
            }
        },
        _ => {
            lemma_nullable_steady(p, e.defs, e.registry, depth, more);
        },
    }
}

/// What grounded patterns describe together does not depend on the depth.
proof fn lemma_shared_steady(
    ordered: bool,
    s: Seq<PatternModel>,
    n: nat,
    m: Given,
    e: Setting,
    depth: nat,
    more: nat,
)
    requires
        n <= s.len(),
        all_grounded(s, e.defs, depth),
        depth <= more,
    ensures
        shared(ordered, s, n, m, e, depth) == shared(ordered, s, n, m, e, more),
    decreases depth, s, n, 1nat,
{
    if n > 0 {
        let k = (n - 1) as nat;
        assert(grounded(s[n - 1], e.defs, depth));
        if shared(ordered, s, n, m, e, depth) {
            let (a, b) = lemma_shares(ordered, s, n, m, e, depth);
            lemma_shared_steady(ordered, s, k, a, e, depth, more);
            lemma_meets_steady(s[n - 1], b, e, depth, more);
            lemma_sharing(ordered, s, n, a, b, m, e, more);
        }
        if shared(ordered, s, n, m, e, more) {
            let (a, b) = lemma_shares(ordered, s, n, m, e, more);
            lemma_shared_steady(ordered, s, k, a, e, depth, more);
            lemma_meets_steady(s[n - 1], b, e, depth, more);
            lemma_sharing(ordered, s, n, a, b, m, e, depth);
        }
    }
}

/// What a grounded pattern describes some times does not depend on the depth.
proof fn lemma_repeated_steady(
    p: PatternModel,
    k: nat,
    m: Given,
    e: Setting,
    depth: nat,
    more: nat,
)
    requires
        grounded(p, e.defs, depth),
        depth <= more,
    ensures
        repeated(p, k, m, e, depth) == repeated(p, k, m, e, more),
    decreases depth, p, 1nat, 2 * k + 1,
{
    if k > 0 {
        let j = (k - 1) as nat;
        if repeated(p, k, m, e, depth) {
            let (a, b) = lemma_last_repeated(p, k, m, e, depth);
            lemma_repeated_steady(p, j, a, e, depth, more);
            lemma_meets_steady(p, b, e, depth, more);
            lemma_repeated_more(p, k, a, b, m, e, more);
        }
        if repeated(p, k, m, e, more) {
            let (a, b) = lemma_last_repeated(p, k, m, e, more);
            lemma_repeated_steady(p, j, a, e, depth, more);
            lemma_meets_steady(p, b, e, depth, more);
            lemma_repeated_more(p, k, a, b, m, e, depth);
        }
    }
}

// ---------------------------------------------------------------------
// No attribute
// ---------------------------------------------------------------------

/// There is no attribute where there is none.
pub proof fn lemma_no_attribute(
    class: NameModel,
    body: Seq<PatternModel>,
    m: Given,
    e: Setting,
    depth: nat,
)
    requires
        m.attributes == Multiset::<Attribute>::empty(),
    ensures
        !one_fits(class, body, m, e, depth),
{
    if one_fits(class, body, m, e, depth) {
        let a = choose|a: Attribute| #[trigger] alone(m, a);
        assert(Multiset::singleton(a).count(a) == 1);
        assert(m.attributes.count(a) == 0);
    }
}

/// A pattern describes that there is nothing just where it accepts that nothing follows.
pub proof fn lemma_meets_nothing(p: PatternModel, e: Setting, depth: nat)
    ensures
        meets(p, nothing(), e, depth) == is_nullable(p, e.defs, e.registry, depth),
    decreases depth, p, 0nat, 0nat,
{
    let none = nothing();
    match p {
        PatternModel::Attribute { name, body, context } => {
            lemma_no_attribute(name, body, none, e, depth);
        },
        PatternModel::Group(values) => {
            lemma_share_nothing(true, values, values.len(), e, depth);
            assert(all_nullable(values, e.defs, e.registry, depth) == shared(
                true,
                values,
                values.len(),
                none,
                e,
                depth,
            ));
        },
        PatternModel::Interleave(values) => {
            lemma_share_nothing(false, values, values.len(), e, depth);
            assert(all_nullable(values, e.defs, e.registry, depth) == shared(
                false,
                values,
                values.len(),
                none,
                e,
                depth,
            ));
        },
        PatternModel::Choice(values) => {
            if some_meet(values, none, e, depth) {
                let i = choose|i: int|
                    0 <= i < values.len() && meets(#[trigger] values[i], none, e, depth);
                lemma_meets_nothing(values[i], e, depth);
                assert(some_nullable(values, e.defs, e.registry, depth));
            }
            if some_nullable(values, e.defs, e.registry, depth) {
                let i = choose|i: int|
                    0 <= i < values.len() && is_nullable(
                        #[trigger] values[i],
                        e.defs,
                        e.registry,
                        depth,
                    );
                lemma_meets_nothing(values[i], e, depth);
                assert(some_meet(values, none, e, depth));
            }
        },
        PatternModel::OneOrMore(values) => {
            if values.len() > 0 {
                let q = values[0];
                lemma_meets_nothing(q, e, depth);
                if some_repeated(q, none, e, depth) {
                    let k = choose|k: nat| #[trigger] positive(k) && repeated(q, k, none, e, depth);
                    let (a, b) = lemma_last_repeated(q, k, none, e, depth);
                    lemma_nothing_made(true, a, b);
                }
                if is_nullable(q, e.defs, e.registry, depth) {
                    lemma_nothing_added(true, none, none);
                    assert(repeated(q, 0, none, e, depth));
                    lemma_repeated_more(q, 1, none, none, none, e, depth);
                    assert(positive(1));
                    assert(some_repeated(q, none, e, depth));
                }
            }
        },
        PatternModel::Ref(name) => {
            if depth > 0 {
                match lookup(e.defs, name) {
                    Some(target) => {
                        lemma_meets_nothing(target, e, (depth - 1) as nat);
                    },
                    None => {},
                }
            }
        },
        _ => {},
    }
}

/// Patterns describe that there is nothing just where each accepts that nothing follows.
pub proof fn lemma_share_nothing(
    ordered: bool,
    s: Seq<PatternModel>,
    n: nat,
    e: Setting,
    depth: nat,
)
    requires
        n <= s.len(),
    ensures
        shared(ordered, s, n, nothing(), e, depth) <==> forall|i: int|
            0 <= i < n ==> is_nullable(#[trigger] s[i], e.defs, e.registry, depth),
    decreases depth, s, n, 1nat,
{
    let none = nothing();
    if n > 0 {
        lemma_share_nothing(ordered, s, (n - 1) as nat, e, depth);
        lemma_meets_nothing(s[n - 1], e, depth);
        if shared(ordered, s, n, none, e, depth) {
            let (a, b) = lemma_shares(ordered, s, n, none, e, depth);
            lemma_nothing_made(ordered, a, b);
        }
        if forall|i: int| 0 <= i < n ==> is_nullable(#[trigger] s[i], e.defs, e.registry, depth) {
            assert(is_nullable(s[n - 1], e.defs, e.registry, depth));
            lemma_nothing_added(ordered, none, none);
            lemma_sharing(ordered, s, n, none, none, none, e, depth);
        }
    }
}

/// What describes no attribute has none.
proof fn lemma_free(p: PatternModel, m: Given, e: Setting, depth: nat)
    requires
        attribute_free(p, e.defs, depth),
        meets(p, m, e, depth),
    ensures
        m.attributes == Multiset::<Attribute>::empty(),
    decreases depth, p, 0nat, 0nat,
{
    match p {
        PatternModel::Group(values) => {
            lemma_free_shared(true, values, values.len(), m, e, depth);
        },
        PatternModel::Interleave(values) => {
            lemma_free_shared(false, values, values.len(), m, e, depth);
        },
        PatternModel::Choice(values) => {
            assert(some_meet(values, m, e, depth));
            let i = choose|i: int|
                0 <= i < values.len() && meets(#[trigger] values[i], m, e, depth);
            assert(all_attribute_free(values, e.defs, depth));
            lemma_free(values[i], m, e, depth);
        },
        PatternModel::OneOrMore(values) => {
            assert(all_attribute_free(values, e.defs, depth));
            assert(some_repeated(values[0], m, e, depth));
            let k = choose|k: nat| #[trigger] positive(k) && repeated(values[0], k, m, e, depth);
            lemma_free_repeated(values[0], k, m, e, depth);
        },
        PatternModel::Ref(name) => {
            lemma_free(lookup(e.defs, name)->0, m, e, (depth - 1) as nat);
        },
        _ => {},
    }
}

/// What describes no attribute, one share each, has none.
proof fn lemma_free_shared(
    ordered: bool,
    s: Seq<PatternModel>,
    n: nat,
    m: Given,
    e: Setting,
    depth: nat,
)
    requires
        n <= s.len(),
        all_attribute_free(s, e.defs, depth),
        shared(ordered, s, n, m, e, depth),
    ensures
        m.attributes == Multiset::<Attribute>::empty(),
    decreases depth, s, n, 1nat,
{
    if n > 0 {
        let (a, b) = lemma_shares(ordered, s, n, m, e, depth);
        lemma_free_shared(ordered, s, (n - 1) as nat, a, e, depth);
        assert(attribute_free(s[n - 1], e.defs, depth));
        lemma_free(s[n - 1], b, e, depth);
        assert(m.attributes =~= Multiset::<Attribute>::empty());
    }
}

/// What describes no attribute, some times, has none.
proof fn lemma_free_repeated(p: PatternModel, k: nat, m: Given, e: Setting, depth: nat)
    requires
        attribute_free(p, e.defs, depth),
        repeated(p, k, m, e, depth),
    ensures
        m.attributes == Multiset::<Attribute>::empty(),
    decreases depth, p, 1nat, 2 * k + 1,
{
    if k > 0 {
        let (a, b) = lemma_last_repeated(p, k, m, e, depth);
        lemma_free_repeated(p, (k - 1) as nat, a, e, depth);
        lemma_free(p, b, e, depth);
        assert(m.attributes =~= Multiset::<Attribute>::empty());
    }
}

// ---------------------------------------------------------------------
// One attribute less
// ---------------------------------------------------------------------

/// What is left of a pattern after an attribute.
pub open spec fn left_after(p: PatternModel, a: Attribute, e: Setting, depth: nat) -> PatternModel {
    attribute_derivative(p, a.0, a.1, e.defs, e.registry, e.context, depth)
}

/// What is left of each pattern after an attribute.
spec fn each_left_after(s: Seq<PatternModel>, a: Attribute, e: Setting, depth: nat) -> Seq<
    PatternModel,
> {
    attribute_derivatives(s, a.0, a.1, e.defs, e.registry, e.context, depth)
}

/// What is given without an attribute is made of the same shares, one of them without it.
proof fn lemma_take_from(ordered: bool, x: Given, y: Given, m: Given, a: Attribute)
    requires
        makes(ordered, x, y, with(m, a)),
    ensures
        y.attributes.count(a) > 0 ==> y == with(less(y, a), a) && makes(ordered, x, less(y, a), m),
        y.attributes.count(a) == 0 ==> x.attributes.count(a) > 0 && x == with(less(x, a), a)
            && makes(ordered, less(x, a), y, m),
{
    let (u, v, w) = (x.attributes, y.attributes, m.attributes);
    assert forall|z: Attribute| #[trigger] u.count(z) + v.count(z) == w.insert(a).count(z) by {
        assert(u.add(v).count(z) == u.count(z) + v.count(z));
    }
    assert(w.insert(a).count(a) == w.count(a) + 1);
    assert(u.count(a) + v.count(a) == w.count(a) + 1);
    if v.count(a) > 0 {
        assert(v =~= v.remove(a).insert(a));
        assert(w =~= u.add(v.remove(a)));
    } else {
        assert(u =~= u.remove(a).insert(a));
        assert(w =~= u.remove(a).add(v));
    }
}

/// An attribute can be added to either share.
proof fn lemma_add_to(ordered: bool, x: Given, y: Given, m: Given, a: Attribute)
    requires
        makes(ordered, x, y, m),
    ensures
        makes(ordered, with(x, a), y, with(m, a)),
        makes(ordered, x, with(y, a), with(m, a)),
{
    assert(with(m, a).attributes =~= with(x, a).attributes.add(y.attributes));
    assert(with(m, a).attributes =~= x.attributes.add(with(y, a).attributes));
}

/// Where a pattern stands for another after an attribute, it does so in a row.
proof fn lemma_put_back(
    ordered: bool,
    values: Seq<PatternModel>,
    i: int,
    q: PatternModel,
    n: nat,
    m: Given,
    a: Attribute,
    e: Setting,
    depth: nat,
)
    requires
        0 <= i < n <= values.len(),
        forall|b: Given| #[trigger]
            meets(q, b, e, depth) ==> meets(values[i], with(b, a), e, depth),
        shared(ordered, values.update(i, q), n, m, e, depth),
    ensures
        shared(ordered, values, n, with(m, a), e, depth),
    decreases n,
{
    let t = values.update(i, q);
    let (x, y) = lemma_shares(ordered, t, n, m, e, depth);
    lemma_add_to(ordered, x, y, m, a);
    if i == n - 1 {
        assert(meets(values[i], with(y, a), e, depth));
        lemma_prefix_shared(ordered, t, values, (n - 1) as nat, x, e, depth);
        lemma_sharing(ordered, values, n, x, with(y, a), with(m, a), e, depth);
    } else {
        lemma_put_back(ordered, values, i, q, (n - 1) as nat, x, a, e, depth);
        lemma_sharing(ordered, values, n, with(x, a), y, with(m, a), e, depth);
    }
}

/// An attribute is in the share of some pattern of a row.
proof fn lemma_take_out(
    ordered: bool,
    values: Seq<PatternModel>,
    derived: Seq<PatternModel>,
    n: nat,
    m: Given,
    a: Attribute,
    e: Setting,
    depth: nat,
) -> (i: int)
    requires
        n <= values.len(),
        values.len() == derived.len(),
        forall|j: int, b: Given|
            0 <= j < values.len() && #[trigger] meets(values[j], with(b, a), e, depth) ==> meets(
                derived[j],
                b,
                e,
                depth,
            ),
        shared(ordered, values, n, with(m, a), e, depth),
    ensures
        0 <= i < n,
        shared(ordered, values.update(i, derived[i]), n, m, e, depth),
    decreases n,
{
    lemma_with(m, a);
    if n == 0 {
        0
    } else {
        let (x, y) = lemma_shares(ordered, values, n, with(m, a), e, depth);
        lemma_take_from(ordered, x, y, m, a);
        if y.attributes.count(a) > 0 {
            let i = n - 1;
            let t = values.update(i, derived[i]);
            assert(meets(values[i], with(less(y, a), a), e, depth));
            assert(meets(derived[i], less(y, a), e, depth));
            lemma_prefix_shared(ordered, values, t, (n - 1) as nat, x, e, depth);
            lemma_sharing(ordered, t, n, x, less(y, a), m, e, depth);
            i
        } else {
            let i = lemma_take_out(
                ordered,
                values,
                derived,
                (n - 1) as nat,
                less(x, a),
                a,
                e,
                depth,
            );
            let t = values.update(i, derived[i]);
            lemma_sharing(ordered, t, n, less(x, a), y, m, e, depth);
            i
        }
    }
}

/// Whether an attribute can be taken first, on its own with others, and the rest be left:
/// either more of the pattern, or nothing.
spec fn pulled(
    p: PatternModel,
    a: Attribute,
    m: Given,
    first: Given,
    rest: Given,
    more: bool,
    e: Setting,
    depth: nat,
) -> bool {
    &&& first.children.len() == 0
    &&& rest.children == m.children
    &&& m.attributes == first.attributes.add(rest.attributes)
    &&& meets(left_after(p, a, e, depth), first, e, depth)
    &&& if more {
        meets(p, rest, e, depth)
    } else {
        rest == nothing()
    }
}

/// An attribute that stands in no group and no interleave can be taken first.
proof fn lemma_pull(p: PatternModel, a: Attribute, m: Given, e: Setting, depth: nat) -> (r: (
    Given,
    Given,
    bool,
))
    requires
        grounded(p, e.defs, depth),
        attributes_apart(p, e.defs, depth),
        meets(p, with(m, a), e, depth),
    ensures
        pulled(p, a, m, r.0, r.1, r.2, e, depth),
    decreases depth, p, 0nat, 0nat,
{
    let none = nothing();
    lemma_with(m, a);
    match p {
        PatternModel::Attribute { name, body, context } => {
            lemma_leaf(p, a, m, e, depth);
            lemma_empty(none, e, depth);
            assert(m == none);
            assert(none.attributes =~= none.attributes.add(none.attributes));
            (none, none, false)
        },
        PatternModel::Group(values) => {
            lemma_free_shared(true, values, values.len(), with(m, a), e, depth);
            (none, none, false)
        },
        PatternModel::Interleave(values) => {
            lemma_free_shared(false, values, values.len(), with(m, a), e, depth);
            (none, none, false)
        },
        PatternModel::Choice(values) => {
            assert(some_meet(values, with(m, a), e, depth));
            let i = choose|i: int|
                0 <= i < values.len() && meets(#[trigger] values[i], with(m, a), e, depth);
            assert(all_attributes_apart(values, e.defs, depth));
            assert(all_grounded(values, e.defs, depth));
            let (first, rest, more) = lemma_pull(values[i], a, m, e, depth);
            let derived = each_left_after(values, a, e, depth);
            assert(derived[i] == left_after(values[i], a, e, depth));
            assert(some_meet(derived, first, e, depth));
            lemma_choice(derived, first, e, depth);
            if more {
                assert(some_meet(values, rest, e, depth));
            }
            (first, rest, more)
        },
        PatternModel::OneOrMore(values) => {
            let q = values[0];
            assert(all_attributes_apart(values, e.defs, depth));
            assert(all_grounded(values, e.defs, depth));
            assert(some_repeated(q, with(m, a), e, depth));
            let k = choose|k: nat| #[trigger]
                positive(k) && repeated(q, k, with(m, a), e, depth);
            let (first, rest, j) = lemma_pull_repeated(q, k, a, m, e, depth);
            lemma_repetition_first(p, left_after(q, a, e, depth), first, e, depth);
            if j > 0 {
                assert(positive(j));
                assert(some_repeated(q, rest, e, depth));
            }
            (first, rest, j > 0)
        },
        PatternModel::Ref(name) => {
            let target = lookup(e.defs, name)->0;
            let below = (depth - 1) as nat;
            let (first, rest, more) = lemma_pull(target, a, m, e, below);
            lemma_attribute_grounded(
                target,
                a.0,
                a.1,
                e.defs,
                e.registry,
                e.context,
                below,
            );
            lemma_meets_steady(left_after(target, a, e, below), first, e, below, depth);
            (first, rest, more)
        },
        _ => { (none, none, false) },
    }
}

/// An attribute that stands in no group and no interleave of what is repeated can be taken
/// first.
proof fn lemma_pull_repeated(
    q: PatternModel,
    k: nat,
    a: Attribute,
    m: Given,
    e: Setting,
    depth: nat,
) -> (r: (Given, Given, nat))
    requires
        grounded(q, e.defs, depth),
        attributes_apart(q, e.defs, depth),
        repeated(q, k, with(m, a), e, depth),
    ensures
        r.0.children.len() == 0,
        r.1.children == m.children,
        m.attributes == r.0.attributes.add(r.1.attributes),
        meets(left_after(q, a, e, depth), r.0, e, depth),
        repeated(q, r.2, r.1, e, depth),
    decreases depth, q, 1nat, k,
{
    lemma_with(m, a);
    if k == 0 {
        (nothing(), nothing(), 0)
    } else {
        let (x, y) = lemma_last_repeated(q, k, with(m, a), e, depth);
        lemma_take_from(true, x, y, m, a);
        if y.attributes.count(a) > 0 {
            let (first, rest, more) = lemma_pull(q, a, less(y, a), e, depth);
            if more {
                let left = Given {
                    attributes: x.attributes.add(rest.attributes),
                    children: m.children,
                };
                assert(makes(true, x, rest, left));
                lemma_repeated_more(q, k, x, rest, left, e, depth);
                assert(m.attributes =~= first.attributes.add(left.attributes));
                (first, left, k)
            } else {
                assert(y.children =~= Seq::<Child>::empty());
                lemma_join_nothing(true, x.children, m.children);
                assert(rest.attributes =~= Multiset::<Attribute>::empty());
                assert(m.attributes =~= first.attributes.add(x.attributes));
                (first, x, (k - 1) as nat)
            }
        } else {
            let (first, rest, j) = lemma_pull_repeated(
                q,
                (k - 1) as nat,
                a,
                less(x, a),
                e,
                depth,
            );
            let left = Given {
                attributes: rest.attributes.add(y.attributes),
                children: m.children,
            };
            assert(makes(true, rest, y, left));
            lemma_repeated_more(q, j + 1, rest, y, left, e, depth);
            assert(m.attributes =~= first.attributes.add(left.attributes));
            (first, left, j + 1)
        }
    }
}

/// What is left of the first time of a repetition can be all.
proof fn lemma_repetition_first(
    p: PatternModel,
    derived: PatternModel,
    m: Given,
    e: Setting,
    depth: nat,
)
    requires
        meets(derived, m, e, depth),
    ensures
        meets(repetition_derivative(derived, p), m, e, depth),
{
    let none = nothing();
    let again = seq![p, PatternModel::Empty];
    let both = seq![derived, choice_of(again)];
    lemma_empty(none, e, depth);
    assert(meets(again[1], none, e, depth));
    assert(some_meet(again, none, e, depth));
    lemma_choice(again, none, e, depth);
    lemma_one_share(true, both, m, e, depth);
    lemma_nothing_added(true, m, m);
    lemma_sharing(true, both, 2, m, none, m, e, depth);
    lemma_containers(true, both, m, e, depth);
}

/// An alternative of an attribute is one at some operand.
proof fn lemma_alternative_of(
    values: Seq<PatternModel>,
    derived: Seq<PatternModel>,
    c: Container,
    defs: Defs,
    depth: nat,
    n: nat,
    k: int,
) -> (i: int)
    requires
        n <= values.len(),
        values.len() == derived.len(),
        0 <= k < alternatives(values, derived, false, c, defs, depth, n).len(),
    ensures
        0 <= i < n,
        alternatives(values, derived, false, c, defs, depth, n)[k] == contained(
            c,
            values.update(i, derived[i]),
        ),
    decreases n,
{
    let m = (n - 1) as nat;
    let before = alternatives(values, derived, false, c, defs, depth, m);
    if k < before.len() {
        lemma_alternative_of(values, derived, c, defs, depth, m, k)
    } else {
        assert(branch_at(values, derived, false, m as int, defs, depth) =~= values.update(
            m as int,
            derived[m as int],
        ));
        m as int
    }
}

/// There is an alternative at each operand that leaves something.
proof fn lemma_alternative_for(
    values: Seq<PatternModel>,
    derived: Seq<PatternModel>,
    c: Container,
    defs: Defs,
    depth: nat,
    n: nat,
    i: int,
) -> (k: int)
    requires
        0 <= i < n <= values.len(),
        values.len() == derived.len(),
        !(derived[i] is NotAllowed),
    ensures
        0 <= k < alternatives(values, derived, false, c, defs, depth, n).len(),
        alternatives(values, derived, false, c, defs, depth, n)[k] == contained(
            c,
            values.update(i, derived[i]),
        ),
    decreases n,
{
    let m = (n - 1) as nat;
    let before = alternatives(values, derived, false, c, defs, depth, m);
    if i < m {
        lemma_alternative_for(values, derived, c, defs, depth, m, i)
    } else {
        assert(branch_at(values, derived, false, i, defs, depth) =~= values.update(i, derived[i]));
        before.len() as int
    }
}

/// The container of an order.
spec fn container(ordered: bool) -> Container {
    if ordered {
        Container::Group
    } else {
        Container::Interleave
    }
}

/// What is left of a group or an interleave after an attribute describes just what may come
/// with the attribute.
proof fn lemma_left_in_container(
    ordered: bool,
    values: Seq<PatternModel>,
    shape: Shape,
    a: Attribute,
    m: Given,
    e: Setting,
    depth: nat,
)
    requires
        all_grounded(values, e.defs, depth),
        forall|i: int| 0 <= i < values.len() ==> shaped(#[trigger] values[i], shape, e.defs),
    ensures
        ({
            let derived = each_left_after(values, a, e, depth);
            let c = container(ordered);
            let s = alternatives(values, derived, false, c, e.defs, depth, values.len());
            some_meet(s, m, e, depth) <==> shared(
                ordered,
                values,
                values.len(),
                with(m, a),
                e,
                depth,
            )
        }),
    decreases depth, values, 1nat, 0nat,
{
    let derived = each_left_after(values, a, e, depth);
    let c = container(ordered);
    let n = values.len();
    let s = alternatives(values, derived, false, c, e.defs, depth, n);
    assert forall|j: int, b: Given| 0 <= j < n implies (#[trigger] meets(
        values[j],
        with(b, a),
        e,
        depth,
    ) == meets(derived[j], b, e, depth)) by {
        assert(grounded(values[j], e.defs, depth));
        assert(shaped(values[j], shape, e.defs));
        assert(derived[j] == left_after(values[j], a, e, depth));
        lemma_left_after(values[j], shape, a, b, e, depth);
    }
    if some_meet(s, m, e, depth) {
        let k = choose|k: int| 0 <= k < s.len() && meets(#[trigger] s[k], m, e, depth);
        let i = lemma_alternative_of(values, derived, c, e.defs, depth, n, k);
        let branch = values.update(i, derived[i]);
        lemma_containers(ordered, branch, m, e, depth);
        assert(shared(ordered, branch, n, m, e, depth));
        assert forall|b: Given| #[trigger] meets(derived[i], b, e, depth) implies meets(
            values[i],
            with(b, a),
            e,
            depth,
        ) by {
            assert(meets(values[i], with(b, a), e, depth) == meets(derived[i], b, e, depth));
        }
        lemma_put_back(ordered, values, i, derived[i], n, m, a, e, depth);
    }
    if shared(ordered, values, n, with(m, a), e, depth) {
        let i = lemma_take_out(ordered, values, derived, n, m, a, e, depth);
        let branch = values.update(i, derived[i]);
        let b = lemma_each_share(ordered, branch, n, m, e, depth, i);
        assert(branch[i] == derived[i]);
        assert(!(derived[i] is NotAllowed));
        let k = lemma_alternative_for(values, derived, c, e.defs, depth, n, i);
        lemma_containers(ordered, branch, m, e, depth);
        assert(meets(s[k], m, e, depth));
    }
}

/// What is left of a repetition after an attribute describes just what may come with the
/// attribute.
proof fn lemma_left_in_repetition(
    p: PatternModel,
    shape: Shape,
    a: Attribute,
    m: Given,
    e: Setting,
    depth: nat,
)
    requires
        p is OneOrMore,
        p->OneOrMore_0.len() > 0,
        grounded(p->OneOrMore_0[0], e.defs, depth),
        attributes_apart(p->OneOrMore_0[0], e.defs, depth),
        shaped(p->OneOrMore_0[0], shape, e.defs),
    ensures
        meets(
            repetition_derivative(left_after(p->OneOrMore_0[0], a, e, depth), p),
            m,
            e,
            depth,
        ) <==> meets(p, with(m, a), e, depth),
    decreases depth, p, 1nat, 0nat,
{
    let none = nothing();
    let q = p->OneOrMore_0[0];
    let first = left_after(q, a, e, depth);
    let again = seq![p, PatternModel::Empty];
    let both = seq![first, choice_of(again)];
    let more = with(m, a);
    lemma_containers(true, both, m, e, depth);
    if shared(true, both, 2, m, e, depth) {
        let (x, y) = lemma_shares(true, both, 2, m, e, depth);
        lemma_one_share(true, both, x, e, depth);
        lemma_left_after(q, shape, a, x, e, depth);
        lemma_choice(again, y, e, depth);
        let i = choose|i: int| 0 <= i < again.len() && meets(#[trigger] again[i], y, e, depth);
        let k = if i == 0 {
            assert(meets(p, y, e, depth));
            assert(some_repeated(q, y, e, depth));
            choose|k: nat| #[trigger] positive(k) && repeated(q, k, y, e, depth)
        } else {
            assert(again[1] == PatternModel::Empty);
            lemma_empty(y, e, depth);
            assert(repeated(q, 0, y, e, depth));
            0
        };
        lemma_add_to(true, x, y, m, a);
        lemma_repeated_first(q, k, with(x, a), y, more, e, depth);
        assert(positive(k + 1));
        assert(some_repeated(q, more, e, depth));
    }
    if meets(p, more, e, depth) {
        assert(some_repeated(q, more, e, depth));
        let k = choose|k: nat| #[trigger] positive(k) && repeated(q, k, more, e, depth);
        let (x, y, j) = lemma_pull_repeated(q, k, a, m, e, depth);
        if j == 0 {
            lemma_empty(y, e, depth);
            assert(meets(again[1], y, e, depth));
        } else {
            assert(positive(j));
            assert(some_repeated(q, y, e, depth));
            assert(meets(again[0], y, e, depth));
        }
        assert(some_meet(again, y, e, depth));
        lemma_choice(again, y, e, depth);
        lemma_one_share(true, both, x, e, depth);
        assert(x.children =~= Seq::<Child>::empty());
        lemma_join_nothing(true, y.children, m.children);
        assert(makes(true, x, y, m));
        lemma_sharing(true, both, 2, x, y, m, e, depth);
    }
}

/// What is left of an attribute pattern after an attribute describes just what the pattern
/// describes with the attribute.
proof fn lemma_leaf(p: PatternModel, a: Attribute, m: Given, e: Setting, depth: nat)
    requires
        p is Attribute,
    ensures
        meets(left_after(p, a, e, depth), m, e, depth) == meets(p, with(m, a), e, depth),
        meets(p, with(m, a), e, depth) ==> m == nothing() && left_after(p, a, e, depth) is Empty,
{
    let none = Multiset::<Attribute>::empty();
    let more = with(m, a);
    lemma_with(m, a);
    let name = p->Attribute_name;
    let body = p->Attribute_body;
    lemma_empty(m, e, depth);
    if one_fits(name, body, more, e, depth) {
        let b = choose|b: Attribute| #[trigger]
            alone(more, b) && holds_name(name, b.0.namespace, b.0.local) && body.len() > 0
                && value_fits(body[0], b.1, e.defs, e.registry, e.context, depth);
        assert(Multiset::singleton(b).count(a) == more.attributes.count(a));
        assert(b == a);
        assert(m.attributes =~= none) by {
            assert forall|z: Attribute| #[trigger] m.attributes.count(z) == 0 by {
                assert(more.attributes.count(z) == Multiset::singleton(a).count(z));
            }
        }
        assert(m =~= nothing());
    }
    if meets(left_after(p, a, e, depth), m, e, depth) {
        assert(m == nothing());
        assert(more.attributes =~= Multiset::singleton(a));
        assert(alone(more, a));
    }
}

/// What is left of a pattern after an attribute describes just what the pattern describes
/// with the attribute.
proof fn lemma_left_after(
    p: PatternModel,
    shape: Shape,
    a: Attribute,
    m: Given,
    e: Setting,
    depth: nat,
)
    requires
        grounded(p, e.defs, depth),
        shaped(p, shape, e.defs),
    ensures
        meets(left_after(p, a, e, depth), m, e, depth) == meets(p, with(m, a), e, depth),
    decreases depth, p, 2nat, 0nat,
{
    let more = with(m, a);
    lemma_with(m, a);
    assert(shaped_within(p, shape, e.defs, depth));
    match p {
        PatternModel::Attribute { name, body, context } => {
            lemma_leaf(p, a, m, e, depth);
        },
        PatternModel::Group(values) => {
            lemma_operands(p, shape, e.defs);
            lemma_left_in_container(true, values, shape, a, m, e, depth);
            lemma_choice(
                alternatives(
                    values,
                    each_left_after(values, a, e, depth),
                    false,
                    Container::Group,
                    e.defs,
                    depth,
                    values.len(),
                ),
                m,
                e,
                depth,
            );
        },
        PatternModel::Interleave(values) => {
            lemma_operands(p, shape, e.defs);
            lemma_left_in_container(false, values, shape, a, m, e, depth);
            lemma_choice(
                alternatives(
                    values,
                    each_left_after(values, a, e, depth),
                    false,
                    Container::Interleave,
                    e.defs,
                    depth,
                    values.len(),
                ),
                m,
                e,
                depth,
            );
        },
        PatternModel::Choice(values) => {
            let derived = each_left_after(values, a, e, depth);
            lemma_operands(p, shape, e.defs);
            assert(all_grounded(values, e.defs, depth));
            lemma_choice(derived, m, e, depth);
            if some_meet(derived, m, e, depth) {
                let i = choose|i: int|
                    0 <= i < derived.len() && meets(#[trigger] derived[i], m, e, depth);
                assert(grounded(values[i], e.defs, depth));
                assert(shaped(values[i], shape, e.defs));
                lemma_left_after(values[i], shape, a, m, e, depth);
                assert(meets(values[i], more, e, depth));
                assert(some_meet(values, more, e, depth));
            }
            if some_meet(values, more, e, depth) {
                let i = choose|i: int|
                    0 <= i < values.len() && meets(#[trigger] values[i], more, e, depth);
                assert(grounded(values[i], e.defs, depth));
                assert(shaped(values[i], shape, e.defs));
                lemma_left_after(values[i], shape, a, m, e, depth);
                assert(meets(derived[i], m, e, depth));
                assert(some_meet(derived, m, e, depth));
            }
        },
        PatternModel::OneOrMore(values) => {
            if values.len() > 0 {
                lemma_operands(p, shape, e.defs);
                assert(all_grounded(values, e.defs, depth));
                assert(shaped(values[0], shape, e.defs));
                assert(all_attributes_apart(values, e.defs, depth));
                lemma_left_in_repetition(p, shape, a, m, e, depth);
            }
        },
        PatternModel::Ref(name) => {
            match lookup(e.defs, name) {
                Some(target) => {
                    let below = (depth - 1) as nat;
                    assert(has_key(e.defs, name));
                    lemma_target(name, shape, e.defs);
                    lemma_left_after(target, shape, a, m, e, below);
                    lemma_attribute_grounded(
                        target,
                        a.0,
                        a.1,
                        e.defs,
                        e.registry,
                        e.context,
                        below,
                    );
                    lemma_meets_steady(left_after(target, a, e, below), m, e, below, depth);
                },
                None => {},
            }
        },
        _ => {},
    }
}

/// What is left of a content model after an attribute describes just the attributes and the
/// children that the content model describes together with it.
pub proof fn law_attribute_derivative_leaves_the_rest(
    p: PatternModel,
    shape: Shape,
    a: Attribute,
    m: Given,
    e: Setting,
    depth: nat,
)
    requires
        grounded(p, e.defs, depth),
        shaped(p, shape, e.defs),
    ensures
        meets(left_after(p, a, e, depth), m, e, depth) <==> meets(p, with(m, a), e, depth),
{
    lemma_left_after(p, shape, a, m, e, depth);
}

} // verus!
