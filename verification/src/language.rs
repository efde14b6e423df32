//! What content models mean for children: which sequences of elements and text they accept,
//! and that the derivatives of patterns accept just what may follow.
//!
//! The attributes of an element are matched before its children. A pattern that still wants
//! an attribute accepts no children here.
use vstd::prelude::*;

use crate::algebra::{
    choice_of, group_of, interleave_of, lemma_without_members, lemma_without_push, without,
    without_identity,
};
use crate::derivative::{
    all_structurally_empty, alternatives, branch_at, child_derivative, child_derivatives,
    closed_position, closed_positions, contained, positions_derivative, prefix_empty, read_as,
    some_structurally_empty, structurally_empty, Child, Container, Defs,
};
use crate::grammar::PatternModel;
use crate::string_map::lookup;

verus! {

/// Children, in order.
pub type Word = Seq<Child>;

/// Whether all children are text.
pub open spec fn all_text(w: Word) -> bool {
    forall|i: int| 0 <= i < w.len() ==> (#[trigger] w[i]) is Text
}

/// Whether a sequence is a merge of two, each in its order.
pub open spec fn merges(u: Word, v: Word, w: Word) -> bool
    decreases w.len(),
{
    if w.len() == 0 {
        u.len() == 0 && v.len() == 0
    } else {
        ||| u.len() > 0 && u[0] == w[0] && merges(u.drop_first(), v, w.drop_first())
        ||| v.len() > 0 && v[0] == w[0] && merges(u, v.drop_first(), w.drop_first())
    }
}

/// Whether a sequence is made of two: one after the other, where there is an order, or else
/// merged.
pub open spec fn joins(ordered: bool, u: Word, v: Word, w: Word) -> bool {
    if ordered {
        w == u + v
    } else {
        merges(u, v, w)
    }
}

/// Whether a number is not zero.
pub open spec fn positive(m: nat) -> bool {
    m > 0
}

/// Whether a pattern accepts a sequence of children, where references are followed
/// to the given depth.
pub open spec fn within(p: PatternModel, w: Word, defs: Defs, depth: nat) -> bool
    decreases depth, p, 0nat, 0nat,
{
    match p {
        PatternModel::Empty => w.len() == 0,
        PatternModel::Text => all_text(w),
        PatternModel::Data { datatype, datatype_library, params, except, context } => w.len() == 1
            && read_as(p, w[0]),
        PatternModel::Value { value, datatype, datatype_library, namespace, context } => w.len()
            == 1 && read_as(p, w[0]),
        PatternModel::List(values) => w.len() == 1 && read_as(p, w[0]) || w.len() == 0
            && values.len() > 0 && structurally_empty(values[0], defs, depth),
        PatternModel::Element { name, body, context } => w.len() == 1 && w[0] is Element && (
        w[0]->Element_0)(name, body),
        PatternModel::Choice(values) => some_within(values, w, defs, depth),
        PatternModel::Group(values) => together(true, values, values.len(), w, defs, depth),
        PatternModel::Interleave(values) => together(false, values, values.len(), w, defs, depth),
        PatternModel::OneOrMore(values) => values.len() > 0 && some_times(
            values[0],
            w,
            defs,
            depth,
        ),
        PatternModel::Ref(name) => depth > 0 && (match lookup(defs, name) {
            Some(target) => within(target, w, defs, (depth - 1) as nat),
            None => false,
        }),
        _ => false,
    }
}

/// Whether some pattern accepts a sequence.
pub open spec fn some_within(s: Seq<PatternModel>, w: Word, defs: Defs, depth: nat) -> bool
    decreases depth, s, 0nat, 0nat,
{
    exists|i: int| 0 <= i < s.len() && within(#[trigger] s[i], w, defs, depth)
}

/// Whether a sequence is made of parts that the first `n` patterns accept.
pub open spec fn together(
    ordered: bool,
    s: Seq<PatternModel>,
    n: nat,
    w: Word,
    defs: Defs,
    depth: nat,
) -> bool
    decreases depth, s, n, 1nat,
{
    if n == 0 || n > s.len() {
        w.len() == 0
    } else {
        with_last(ordered, s, n, w, defs, depth)
    }
}

/// Whether a sequence is made of what the last of the first `n` patterns accepts and of
/// what the others do.
pub open spec fn with_last(
    ordered: bool,
    s: Seq<PatternModel>,
    n: nat,
    w: Word,
    defs: Defs,
    depth: nat,
) -> bool
    decreases depth, s, n, 0nat,
{
    exists|u: Word, v: Word|
        #[trigger] joins(ordered, u, v, w) && 0 < n <= s.len() && together(
            ordered,
            s,
            (n - 1) as nat,
            u,
            defs,
            depth,
        ) && within(s[n - 1], v, defs, depth)
}

/// Whether a sequence falls into one or more parts that a pattern accepts.
pub open spec fn some_times(p: PatternModel, w: Word, defs: Defs, depth: nat) -> bool
    decreases depth, p, 2nat, 0nat,
{
    exists|m: nat| #[trigger] positive(m) && times(p, m, w, defs, depth)
}

/// Whether a sequence falls into the given number of parts that a pattern accepts.
pub open spec fn times(p: PatternModel, m: nat, w: Word, defs: Defs, depth: nat) -> bool
    decreases depth, p, 1nat, 2 * m + 1,
{
    if m == 0 {
        w.len() == 0
    } else {
        last_time(p, m, w, defs, depth)
    }
}

/// Whether a sequence ends with a part that a pattern accepts, after one less of them.
pub open spec fn last_time(p: PatternModel, m: nat, w: Word, defs: Defs, depth: nat) -> bool
    decreases depth, p, 1nat, 2 * m,
{
    exists|u: Word, v: Word|
        #[trigger] joins(true, u, v, w) && m > 0 && times(p, (m - 1) as nat, u, defs, depth)
            && within(p, v, defs, depth)
}

/// Whether a pattern accepts a sequence of child elements.
pub open spec fn accepts(p: PatternModel, w: Word, defs: Defs) -> bool {
    exists|depth: nat| #[trigger] within(p, w, defs, depth)
}

// ---------------------------------------------------------------------
// Sequences
// ---------------------------------------------------------------------

/// A sequence after a child.
pub open spec fn after(child: Child, w: Word) -> Word {
    seq![child] + w
}

/// The parts of a sequence after a child.
proof fn lemma_after(child: Child, w: Word)
    ensures
        after(child, w).len() == w.len() + 1,
        after(child, w)[0] == child,
        after(child, w).drop_first() == w,
{
    assert(after(child, w).drop_first() =~= w);
}

/// A merge of nothing with a sequence is the sequence.
proof fn lemma_merge_nothing(v: Word, w: Word)
    ensures
        merges(Seq::empty(), v, w) <==> v == w,
        merges(v, Seq::empty(), w) <==> v == w,
    decreases w.len(),
{
    if w.len() == 0 {
        if v.len() == 0 {
            assert(v =~= w);
        }
    } else if v.len() > 0 {
        lemma_merge_nothing(v.drop_first(), w.drop_first());
        if v[0] == w[0] && v.drop_first() == w.drop_first() {
            assert(v =~= seq![v[0]] + v.drop_first());
            assert(w =~= seq![w[0]] + w.drop_first());
        }
    }
}

/// Nothing joins a sequence to itself.
pub proof fn lemma_join_nothing(ordered: bool, v: Word, w: Word)
    ensures
        joins(ordered, Seq::empty(), v, w) <==> v == w,
        joins(ordered, v, Seq::empty(), w) <==> v == w,
{
    lemma_merge_nothing(v, w);
    assert(Seq::<Child>::empty() + v =~= v);
    assert(v + Seq::<Child>::empty() =~= v);
}

/// Only nothing joins to nothing.
pub proof fn lemma_join_to_nothing(ordered: bool, u: Word, v: Word)
    ensures
        joins(ordered, u, v, Seq::empty()) <==> u.len() == 0 && v.len() == 0,
{
    assert((u + v).len() == u.len() + v.len());
    if u.len() == 0 && v.len() == 0 {
        assert(u + v =~= Seq::<Child>::empty());
    }
}

/// A child before two sequences that join comes before the first, or before the second where
/// it can.
proof fn lemma_join_after(ordered: bool, child: Child, u: Word, v: Word, w: Word)
    requires
        joins(ordered, u, v, w),
    ensures
        joins(ordered, after(child, u), v, after(child, w)),
        (ordered ==> u.len() == 0) ==> joins(ordered, u, after(child, v), after(child, w)),
{
    lemma_after(child, u);
    lemma_after(child, v);
    lemma_after(child, w);
    if ordered {
        assert(after(child, u) + v =~= after(child, w));
        if u.len() == 0 {
            assert(u + after(child, v) =~= after(child, w));
        }
    }
}

/// The first child of a join comes from the first sequence, or from the second where it can.
proof fn lemma_join_first(ordered: bool, child: Child, u: Word, v: Word, w: Word)
    requires
        joins(ordered, u, v, after(child, w)),
    ensures
        (u.len() > 0 && u == after(child, u.drop_first()) && joins(
            ordered,
            u.drop_first(),
            v,
            w,
        )) || (v.len() > 0 && v == after(child, v.drop_first()) && joins(
            ordered,
            u,
            v.drop_first(),
            w,
        ) && (ordered ==> u.len() == 0)),
{
    lemma_after(child, w);
    let all = after(child, w);
    if ordered {
        if u.len() > 0 {
            assert(u[0] == all[0]);
            assert(u =~= after(child, u.drop_first()));
            assert(u.drop_first() + v =~= all.drop_first());
        } else {
            assert(v =~= all);
            assert(u + v.drop_first() =~= w);
        }
    } else {
        if u.len() > 0 && u[0] == child && merges(u.drop_first(), v, w) {
            assert(u =~= after(child, u.drop_first()));
        } else {
            assert(v =~= after(child, v.drop_first()));
        }
    }
}

// ---------------------------------------------------------------------
// More depth accepts no less
// ---------------------------------------------------------------------

/// What is satisfied by no event within a depth is so within a greater one.
pub proof fn lemma_empty_deeper(p: PatternModel, defs: Defs, depth: nat, more: nat)
    requires
        structurally_empty(p, defs, depth),
        depth <= more,
    ensures
        structurally_empty(p, defs, more),
    decreases depth, p,
{
    match p {
        PatternModel::List(values) => {
            lemma_empty_deeper(values[0], defs, depth, more);
        },
        PatternModel::OneOrMore(values) => {
            lemma_empty_deeper(values[0], defs, depth, more);
        },
        PatternModel::Choice(values) => {
            assert(some_structurally_empty(values, defs, depth));
            let i = choose|i: int|
                0 <= i < values.len() && structurally_empty(#[trigger] values[i], defs, depth);
            lemma_empty_deeper(values[i], defs, depth, more);
            assert(some_structurally_empty(values, defs, more));
        },
        PatternModel::Group(values) => {
            lemma_all_empty_deeper(values, defs, depth, more);
        },
        PatternModel::Interleave(values) => {
            lemma_all_empty_deeper(values, defs, depth, more);
        },
        PatternModel::Ref(name) => {
            let target = lookup(defs, name)->0;
            lemma_empty_deeper(target, defs, (depth - 1) as nat, (more - 1) as nat);
        },
        _ => {},
    }
}

/// What is satisfied by no event within a depth, each of patterns, is so within a greater
/// one.
proof fn lemma_all_empty_deeper(s: Seq<PatternModel>, defs: Defs, depth: nat, more: nat)
    requires
        all_structurally_empty(s, defs, depth),
        depth <= more,
    ensures
        all_structurally_empty(s, defs, more),
    decreases depth, s,
{
    assert forall|i: int| 0 <= i < s.len() implies structurally_empty(
        #[trigger] s[i],
        defs,
        more,
    ) by {
        assert(structurally_empty(s[i], defs, depth));
        lemma_empty_deeper(s[i], defs, depth, more);
    }
}

/// What is accepted within a depth is accepted within a greater one.
pub proof fn lemma_deeper(p: PatternModel, w: Word, defs: Defs, depth: nat, more: nat)
    requires
        within(p, w, defs, depth),
        depth <= more,
    ensures
        within(p, w, defs, more),
    decreases depth, p, 0nat, 0nat,
{
    match p {
        PatternModel::List(values) => {
            if w.len() == 0 {
                lemma_empty_deeper(values[0], defs, depth, more);
            }
        },
        PatternModel::Choice(values) => {
            assert(some_within(values, w, defs, depth));
            let i = choose|i: int|
                0 <= i < values.len() && within(#[trigger] values[i], w, defs, depth);
            lemma_deeper(values[i], w, defs, depth, more);
            assert(some_within(values, w, defs, more));
        },
        PatternModel::Group(values) => {
            lemma_deeper_together(true, values, values.len(), w, defs, depth, more);
        },
        PatternModel::Interleave(values) => {
            lemma_deeper_together(false, values, values.len(), w, defs, depth, more);
        },
        PatternModel::OneOrMore(values) => {
            assert(some_times(values[0], w, defs, depth));
            let m = choose|m: nat| #[trigger] positive(m) && times(values[0], m, w, defs, depth);
            lemma_deeper_times(values[0], m, w, defs, depth, more);
            assert(positive(m));
            assert(some_times(values[0], w, defs, more));
        },
        PatternModel::Ref(name) => {
            lemma_deeper(
                lookup(defs, name)->0,
                w,
                defs,
                (depth - 1) as nat,
                (more - 1) as nat,
            );
        },
        _ => {},
    }
}

/// What is accepted together within a depth is accepted within a greater one.
proof fn lemma_deeper_together(
    ordered: bool,
    s: Seq<PatternModel>,
    n: nat,
    w: Word,
    defs: Defs,
    depth: nat,
    more: nat,
)
    requires
        together(ordered, s, n, w, defs, depth),
        depth <= more,
    ensures
        together(ordered, s, n, w, defs, more),
    decreases depth, s, n, 1nat,
{
    if n == 0 || n > s.len() {
    } else {
        let (u, v) = lemma_parts(ordered, s, n, w, defs, depth);
        lemma_deeper_together(ordered, s, (n - 1) as nat, u, defs, depth, more);
        lemma_deeper(s[n - 1], v, defs, depth, more);
        lemma_whole(ordered, s, n, u, v, w, defs, more);
    }
}

/// What is accepted some times within a depth is accepted within a greater one.
proof fn lemma_deeper_times(
    p: PatternModel,
    m: nat,
    w: Word,
    defs: Defs,
    depth: nat,
    more: nat,
)
    requires
        times(p, m, w, defs, depth),
        depth <= more,
    ensures
        times(p, m, w, defs, more),
    decreases depth, p, 1nat, 2 * m + 1,
{
    if m > 0 {
        let (u, v) = lemma_last_time(p, m, w, defs, depth);
        lemma_deeper_times(p, (m - 1) as nat, u, defs, depth, more);
        lemma_deeper(p, v, defs, depth, more);
        lemma_one_more_time(p, m, u, v, w, defs, more);
    }
}

/// The parts of which the last is accepted.
pub proof fn lemma_last_time(p: PatternModel, m: nat, w: Word, defs: Defs, depth: nat) -> (r: (
    Word,
    Word,
))
    requires
        m > 0,
        times(p, m, w, defs, depth),
    ensures
        joins(true, r.0, r.1, w),
        times(p, (m - 1) as nat, r.0, defs, depth),
        within(p, r.1, defs, depth),
{
    assert(last_time(p, m, w, defs, depth));
    choose|u: Word, v: Word|
        #[trigger] joins(true, u, v, w) && times(p, (m - 1) as nat, u, defs, depth) && within(
            p,
            v,
            defs,
            depth,
        )
}

/// One more part at the end.
pub proof fn lemma_one_more_time(
    p: PatternModel,
    m: nat,
    u: Word,
    v: Word,
    w: Word,
    defs: Defs,
    depth: nat,
)
    requires
        m > 0,
        joins(true, u, v, w),
        times(p, (m - 1) as nat, u, defs, depth),
        within(p, v, defs, depth),
    ensures
        times(p, m, w, defs, depth),
{
    assert(joins(true, u, v, w));
    assert(last_time(p, m, w, defs, depth));
}

/// The parts that a sequence is made of.
pub proof fn lemma_parts(
    ordered: bool,
    s: Seq<PatternModel>,
    n: nat,
    w: Word,
    defs: Defs,
    depth: nat,
) -> (r: (Word, Word))
    requires
        0 < n <= s.len(),
        together(ordered, s, n, w, defs, depth),
    ensures
        joins(ordered, r.0, r.1, w),
        together(ordered, s, (n - 1) as nat, r.0, defs, depth),
        within(s[n - 1], r.1, defs, depth),
{
    assert(with_last(ordered, s, n, w, defs, depth));
    choose|u: Word, v: Word|
        #[trigger] joins(ordered, u, v, w) && together(ordered, s, (n - 1) as nat, u, defs, depth)
            && within(s[n - 1], v, defs, depth)
}

/// A sequence made of its parts.
pub proof fn lemma_whole(
    ordered: bool,
    s: Seq<PatternModel>,
    n: nat,
    u: Word,
    v: Word,
    w: Word,
    defs: Defs,
    depth: nat,
)
    requires
        0 < n <= s.len(),
        joins(ordered, u, v, w),
        together(ordered, s, (n - 1) as nat, u, defs, depth),
        within(s[n - 1], v, defs, depth),
    ensures
        together(ordered, s, n, w, defs, depth),
{
    assert(joins(ordered, u, v, w));
    assert(with_last(ordered, s, n, w, defs, depth));
}

/// Only the first `n` patterns count.
proof fn lemma_prefix(
    ordered: bool,
    s: Seq<PatternModel>,
    t: Seq<PatternModel>,
    n: nat,
    w: Word,
    defs: Defs,
    depth: nat,
)
    requires
        n <= s.len(),
        n <= t.len(),
        forall|i: int| 0 <= i < n ==> #[trigger] s[i] == t[i],
        together(ordered, s, n, w, defs, depth),
    ensures
        together(ordered, t, n, w, defs, depth),
    decreases n,
{
    if n > 0 {
        let (u, v) = lemma_parts(ordered, s, n, w, defs, depth);
        lemma_prefix(ordered, s, t, (n - 1) as nat, u, defs, depth);
        assert(s[n - 1] == t[n - 1]);
        lemma_whole(ordered, t, n, u, v, w, defs, depth);
    }
}

/// One pattern accepts what it accepts.
proof fn lemma_alone(
    ordered: bool,
    s: Seq<PatternModel>,
    w: Word,
    defs: Defs,
    depth: nat,
)
    requires
        s.len() > 0,
    ensures
        together(ordered, s, 1, w, defs, depth) <==> within(s[0], w, defs, depth),
{
    let none = Seq::<Child>::empty();
    if together(ordered, s, 1, w, defs, depth) {
        let (u, v) = lemma_parts(ordered, s, 1, w, defs, depth);
        assert(u =~= none);
        lemma_join_nothing(ordered, v, w);
    }
    if within(s[0], w, defs, depth) {
        lemma_join_nothing(ordered, w, w);
        assert(together(ordered, s, 0, none, defs, depth));
        lemma_whole(ordered, s, 1, none, w, w, defs, depth);
    }
}

// ---------------------------------------------------------------------
// No child at all
// ---------------------------------------------------------------------

/// A pattern that accepts that there is no child can be passed over.
pub proof fn lemma_accepts_nothing(p: PatternModel, defs: Defs, depth: nat)
    requires
        within(p, Seq::empty(), defs, depth),
    ensures
        structurally_empty(p, defs, depth),
    decreases depth, p,
{
    let none = Seq::<Child>::empty();
    match p {
        PatternModel::Choice(values) => {
            assert(some_within(values, none, defs, depth));
            let i = choose|i: int|
                0 <= i < values.len() && within(#[trigger] values[i], none, defs, depth);
            lemma_accepts_nothing(values[i], defs, depth);
            assert(some_structurally_empty(values, defs, depth));
        },
        PatternModel::Group(values) => {
            lemma_nothing_together(true, values, values.len(), defs, depth);
            lemma_each_accepts_nothing(values, defs, depth);
        },
        PatternModel::Interleave(values) => {
            lemma_nothing_together(false, values, values.len(), defs, depth);
            lemma_each_accepts_nothing(values, defs, depth);
        },
        PatternModel::OneOrMore(values) => {
            let b = values[0];
            assert(some_times(b, none, defs, depth));
            let m = choose|m: nat| #[trigger] positive(m) && times(b, m, none, defs, depth);
            let (u, v) = lemma_last_time(b, m, none, defs, depth);
            lemma_join_to_nothing(true, u, v);
            assert(v =~= none);
            lemma_accepts_nothing(b, defs, depth);
        },
        PatternModel::Ref(name) => {
            lemma_accepts_nothing(lookup(defs, name)->0, defs, (depth - 1) as nat);
        },
        _ => {},
    }
}

/// Patterns that accept that there is no child can be passed over.
proof fn lemma_each_accepts_nothing(s: Seq<PatternModel>, defs: Defs, depth: nat)
    requires
        forall|i: int| 0 <= i < s.len() ==> within(#[trigger] s[i], Seq::empty(), defs, depth),
    ensures
        all_structurally_empty(s, defs, depth),
    decreases depth, s,
{
    assert forall|i: int| 0 <= i < s.len() implies structurally_empty(
        #[trigger] s[i],
        defs,
        depth,
    ) by {
        lemma_accepts_nothing(s[i], defs, depth);
    }
}

/// The first `n` patterns accept no child at all just where each does.
pub proof fn lemma_nothing_together(
    ordered: bool,
    s: Seq<PatternModel>,
    n: nat,
    defs: Defs,
    depth: nat,
)
    requires
        n <= s.len(),
    ensures
        together(ordered, s, n, Seq::empty(), defs, depth) <==> forall|i: int|
            0 <= i < n ==> within(#[trigger] s[i], Seq::empty(), defs, depth),
    decreases n,
{
    let none = Seq::<Child>::empty();
    if n > 0 {
        lemma_nothing_together(ordered, s, (n - 1) as nat, defs, depth);
        if together(ordered, s, n, none, defs, depth) {
            let (u, v) = lemma_parts(ordered, s, n, none, defs, depth);
            lemma_join_to_nothing(ordered, u, v);
            assert(u =~= none && v =~= none);
        }
        if forall|i: int| 0 <= i < n ==> within(#[trigger] s[i], none, defs, depth) {
            assert(within(s[n - 1], none, defs, depth));
            lemma_join_nothing(ordered, none, none);
            lemma_whole(ordered, s, n, none, none, none, defs, depth);
        }
    }
}

// ---------------------------------------------------------------------
// The algebra keeps the meaning
// ---------------------------------------------------------------------

/// What a choice amounts to accepts what one of its patterns does.
pub proof fn law_choice_keeps_meaning(s: Seq<PatternModel>, w: Word, defs: Defs, depth: nat)
    ensures
        within(choice_of(s), w, defs, depth) <==> some_within(s, w, defs, depth),
{
    let n = PatternModel::NotAllowed;
    lemma_without_members(s, n);
    let rest = without(s, n);
    if some_within(s, w, defs, depth) {
        let i = choose|i: int| 0 <= i < s.len() && within(#[trigger] s[i], w, defs, depth);
        assert(s.contains(s[i]));
        assert(rest.contains(s[i]));
        let j = choose|j: int| 0 <= j < rest.len() && rest[j] == s[i];
        assert(within(rest[j], w, defs, depth));
        assert(some_within(rest, w, defs, depth));
    }
    if within(choice_of(s), w, defs, depth) {
        assert(rest.len() > 0);
        let j = if rest.len() == 1 {
            0
        } else {
            assert(some_within(rest, w, defs, depth));
            choose|j: int| 0 <= j < rest.len() && within(#[trigger] rest[j], w, defs, depth)
        };
        assert(rest.contains(rest[j]));
        assert(s.contains(rest[j]));
        let i = choose|i: int| 0 <= i < s.len() && s[i] == rest[j];
        assert(within(s[i], w, defs, depth));
    }
}

/// Each pattern accepts a part.
proof fn lemma_each_part(
    ordered: bool,
    s: Seq<PatternModel>,
    n: nat,
    w: Word,
    defs: Defs,
    depth: nat,
    k: int,
) -> (v: Word)
    requires
        n <= s.len(),
        0 <= k < n,
        together(ordered, s, n, w, defs, depth),
    ensures
        within(s[k], v, defs, depth),
    decreases n,
{
    let (u, v) = lemma_parts(ordered, s, n, w, defs, depth);
    if k == n - 1 {
        v
    } else {
        lemma_each_part(ordered, s, (n - 1) as nat, u, defs, depth, k)
    }
}

/// Patterns that accept only no child at all can be left out.
proof fn lemma_without_empty(
    ordered: bool,
    s: Seq<PatternModel>,
    w: Word,
    defs: Defs,
    depth: nat,
)
    ensures
        together(ordered, s, s.len(), w, defs, depth) <==> together(
            ordered,
            without(s, PatternModel::Empty),
            without(s, PatternModel::Empty).len(),
            w,
            defs,
            depth,
        ),
    decreases s.len(),
{
    let e = PatternModel::Empty;
    let none = Seq::<Child>::empty();
    if s.len() > 0 {
        let front = s.drop_last();
        let last = s.last();
        let n = s.len();
        let rest = without(front, e);
        let all = without(s, e);
        assert(s =~= front.push(last));
        lemma_without_push(front, last, e);
        if together(ordered, s, n, w, defs, depth) {
            let (u, v) = lemma_parts(ordered, s, n, w, defs, depth);
            lemma_prefix(ordered, s, front, (n - 1) as nat, u, defs, depth);
            lemma_without_empty(ordered, front, u, defs, depth);
            if last == e {
                assert(v =~= none);
                lemma_join_nothing(ordered, u, w);
            } else {
                lemma_prefix(ordered, rest, all, rest.len(), u, defs, depth);
                lemma_whole(ordered, all, all.len(), u, v, w, defs, depth);
            }
        }
        if together(ordered, all, all.len(), w, defs, depth) {
            if last == e {
                lemma_without_empty(ordered, front, w, defs, depth);
                lemma_prefix(ordered, front, s, front.len(), w, defs, depth);
                lemma_join_nothing(ordered, w, w);
                assert(within(e, none, defs, depth));
                lemma_whole(ordered, s, n, w, none, w, defs, depth);
            } else {
                let (u, v) = lemma_parts(ordered, all, all.len(), w, defs, depth);
                lemma_prefix(ordered, all, rest, rest.len(), u, defs, depth);
                lemma_without_empty(ordered, front, u, defs, depth);
                lemma_prefix(ordered, front, s, front.len(), u, defs, depth);
                lemma_whole(ordered, s, n, u, v, w, defs, depth);
            }
        }
    }
}

/// What a group or an interleave amounts to accepts what is made of parts that its patterns
/// accept.
pub proof fn law_containers_keep_meaning(
    ordered: bool,
    s: Seq<PatternModel>,
    w: Word,
    defs: Defs,
    depth: nat,
)
    ensures
        within(
            if ordered {
                group_of(s)
            } else {
                interleave_of(s)
            },
            w,
            defs,
            depth,
        ) <==> together(ordered, s, s.len(), w, defs, depth),
{
    let no = PatternModel::NotAllowed;
    if s.contains(no) {
        if together(ordered, s, s.len(), w, defs, depth) {
            let k = choose|k: int| 0 <= k < s.len() && s[k] == no;
            let v = lemma_each_part(ordered, s, s.len(), w, defs, depth, k);
            assert(!within(no, v, defs, depth));
        }
    } else {
        let rest = without_identity(s);
        if s.len() > 1 {
            lemma_without_empty(ordered, s, w, defs, depth);
        }
        if rest.len() == 0 {
            assert(together(ordered, rest, 0, w, defs, depth) == (w.len() == 0));
        } else if rest.len() == 1 {
            lemma_alone(ordered, rest, w, defs, depth);
        }
    }
}

// ---------------------------------------------------------------------
// Positions that were passed over
// ---------------------------------------------------------------------

/// What is left of a position that was passed over accepts no child, and accepts that there
/// is none only where the position did.
proof fn lemma_closed_sound(p: PatternModel, v: Word, defs: Defs, depth: nat, e: nat)
    requires
        within(closed_position(p, defs, depth), v, defs, e),
    ensures
        v.len() == 0,
        within(p, v, defs, depth + e),
    decreases depth, p, 0nat, 0nat,
{
    let enough = depth + e;
    match p {
        PatternModel::List(values) => {
            lemma_empty_deeper(values[0], defs, depth, enough);
        },
        PatternModel::Group(values) => {
            let s = closed_positions(values, defs, depth);
            law_containers_keep_meaning(true, s, v, defs, e);
            lemma_closed_together(true, values, s.len(), v, defs, depth, e);
        },
        PatternModel::Interleave(values) => {
            let s = closed_positions(values, defs, depth);
            law_containers_keep_meaning(false, s, v, defs, e);
            lemma_closed_together(false, values, s.len(), v, defs, depth, e);
        },
        PatternModel::Choice(values) => {
            let s = closed_positions(values, defs, depth);
            law_choice_keeps_meaning(s, v, defs, e);
            assert(some_within(s, v, defs, e));
            let i = choose|i: int| 0 <= i < s.len() && within(#[trigger] s[i], v, defs, e);
            assert(s[i] == closed_position(values[i], defs, depth));
            lemma_closed_sound(values[i], v, defs, depth, e);
            assert(some_within(values, v, defs, enough));
        },
        PatternModel::OneOrMore(values) => {
            if values.len() > 0 {
                lemma_closed_sound(values[0], v, defs, depth, e);
                lemma_once(values[0], v, defs, enough);
            }
        },
        PatternModel::Ref(name) => {
            if depth > 0 && lookup(defs, name) is Some {
                lemma_closed_sound(lookup(defs, name)->0, v, defs, (depth - 1) as nat, e);
            }
        },
        _ => {},
    }
}

/// What is accepted once is accepted one or more times.
proof fn lemma_once(p: PatternModel, w: Word, defs: Defs, depth: nat)
    requires
        within(p, w, defs, depth),
    ensures
        some_times(p, w, defs, depth),
{
    let none = Seq::<Child>::empty();
    assert(times(p, 0, none, defs, depth));
    lemma_join_nothing(true, w, w);
    lemma_one_more_time(p, 1, none, w, w, defs, depth);
    assert(positive(1));
}

/// What is left of positions that were passed over accepts no child, and accepts that there
/// is none only where the positions did.
proof fn lemma_closed_together(
    ordered: bool,
    values: Seq<PatternModel>,
    n: nat,
    w: Word,
    defs: Defs,
    depth: nat,
    e: nat,
)
    requires
        n <= values.len(),
        together(ordered, closed_positions(values, defs, depth), n, w, defs, e),
    ensures
        w.len() == 0,
        together(ordered, values, n, w, defs, depth + e),
    decreases depth, values, n, 0nat,
{
    let s = closed_positions(values, defs, depth);
    if n > 0 {
        let (u, v) = lemma_parts(ordered, s, n, w, defs, e);
        lemma_closed_together(ordered, values, (n - 1) as nat, u, defs, depth, e);
        assert(s[n - 1] == closed_position(values[n - 1], defs, depth));
        lemma_closed_sound(values[n - 1], v, defs, depth, e);
        assert(u =~= Seq::<Child>::empty());
        lemma_join_nothing(ordered, v, w);
        lemma_whole(ordered, values, n, u, v, w, defs, depth + e);
    }
}

/// What is left of a position that accepts that there is no child accepts it too.
proof fn lemma_closed_complete(p: PatternModel, defs: Defs, d: nat, depth: nat)
    requires
        within(p, Seq::empty(), defs, d),
        d <= depth,
    ensures
        within(closed_position(p, defs, depth), Seq::empty(), defs, d),
    decreases depth, p,
{
    let none = Seq::<Child>::empty();
    match p {
        PatternModel::List(values) => {
            lemma_empty_deeper(values[0], defs, d, depth);
        },
        PatternModel::Group(values) => {
            lemma_nothing_together(true, values, values.len(), defs, d);
            lemma_closed_each_complete(true, values, defs, d, depth);
        },
        PatternModel::Interleave(values) => {
            lemma_nothing_together(false, values, values.len(), defs, d);
            lemma_closed_each_complete(false, values, defs, d, depth);
        },
        PatternModel::Choice(values) => {
            assert(some_within(values, none, defs, d));
            let i = choose|i: int|
                0 <= i < values.len() && within(#[trigger] values[i], none, defs, d);
            lemma_closed_complete(values[i], defs, d, depth);
            let s = closed_positions(values, defs, depth);
            assert(s[i] == closed_position(values[i], defs, depth));
            assert(some_within(s, none, defs, d));
            law_choice_keeps_meaning(s, none, defs, d);
        },
        PatternModel::OneOrMore(values) => {
            let b = values[0];
            assert(some_times(b, none, defs, d));
            let m = choose|m: nat| #[trigger] positive(m) && times(b, m, none, defs, d);
            let (u, v) = lemma_last_time(b, m, none, defs, d);
            lemma_join_to_nothing(true, u, v);
            assert(v =~= none);
            lemma_closed_complete(b, defs, d, depth);
        },
        PatternModel::Ref(name) => {
            let target = lookup(defs, name)->0;
            let below = (depth - 1) as nat;
            lemma_closed_complete(target, defs, (d - 1) as nat, below);
            lemma_deeper(closed_position(target, defs, below), none, defs, (d - 1) as nat, d);
        },
        _ => {},
    }
}

/// What is left of positions that accept that there is no child accepts it too.
proof fn lemma_closed_each_complete(
    ordered: bool,
    values: Seq<PatternModel>,
    defs: Defs,
    d: nat,
    depth: nat,
)
    requires
        forall|i: int|
            0 <= i < values.len() ==> within(#[trigger] values[i], Seq::empty(), defs, d),
        d <= depth,
    ensures
        within(
            if ordered {
                group_of(closed_positions(values, defs, depth))
            } else {
                interleave_of(closed_positions(values, defs, depth))
            },
            Seq::empty(),
            defs,
            d,
        ),
    decreases depth, values,
{
    let none = Seq::<Child>::empty();
    let s = closed_positions(values, defs, depth);
    assert forall|i: int| 0 <= i < s.len() implies within(#[trigger] s[i], none, defs, d) by {
        assert(within(values[i], none, defs, d));
        lemma_closed_complete(values[i], defs, d, depth);
    }
    lemma_nothing_together(ordered, s, s.len(), defs, d);
    law_containers_keep_meaning(ordered, s, none, defs, d);
}

// ---------------------------------------------------------------------
// Repetitions
// ---------------------------------------------------------------------

/// Parts after parts are parts.
proof fn lemma_times_more(
    p: PatternModel,
    x: Word,
    m: nat,
    y: Word,
    defs: Defs,
    depth: nat,
)
    requires
        within(p, x, defs, depth),
        times(p, m, y, defs, depth),
    ensures
        times(p, m + 1, x + y, defs, depth),
    decreases m,
{
    let none = Seq::<Child>::empty();
    if m == 0 {
        assert(y =~= none);
        assert(x + y =~= x);
        lemma_join_nothing(true, x, x);
        assert(times(p, 0, none, defs, depth));
        lemma_one_more_time(p, 1, none, x, x, defs, depth);
    } else {
        let (u, v) = lemma_last_time(p, m, y, defs, depth);
        lemma_times_more(p, x, (m - 1) as nat, u, defs, depth);
        assert(x + y =~= (x + u) + v);
        lemma_one_more_time(p, m + 1, x + u, v, x + y, defs, depth);
    }
}

/// The first part that is not empty starts with the first child.
proof fn lemma_first_time(
    p: PatternModel,
    m: nat,
    child: Child,
    w: Word,
    defs: Defs,
    depth: nat,
) -> (r: (Word, Word, nat))
    requires
        times(p, m, after(child, w), defs, depth),
    ensures
        w == r.0 + r.1,
        within(p, after(child, r.0), defs, depth),
        times(p, r.2, r.1, defs, depth),
    decreases m,
{
    let none = Seq::<Child>::empty();
    lemma_after(child, w);
    let (u, v) = lemma_last_time(p, m, after(child, w), defs, depth);
    lemma_join_first(true, child, u, v, w);
    if u.len() == 0 {
        assert(u + v.drop_first() =~= v.drop_first());
        assert(w =~= w + none);
        assert(times(p, 0, none, defs, depth));
        (w, none, 0)
    } else {
        let rest = u.drop_first();
        let (a, b, k) = lemma_first_time(p, (m - 1) as nat, child, rest, defs, depth);
        assert(w =~= a + (b + v));
        lemma_one_more_time(p, k + 1, b, v, b + v, defs, depth);
        (a, b + v, k + 1)
    }
}

// ---------------------------------------------------------------------
// Alternatives
// ---------------------------------------------------------------------

/// Whether an event may match at an operand.
spec fn may_match(
    values: Seq<PatternModel>,
    derived: Seq<PatternModel>,
    ordered: bool,
    i: int,
    defs: Defs,
    depth: nat,
) -> bool {
    0 <= i < values.len() && !(derived[i] is NotAllowed) && (ordered ==> prefix_empty(
        values,
        i,
        defs,
        depth,
    ))
}

/// The container of an order.
spec fn container(ordered: bool) -> Container {
    if ordered {
        Container::Group
    } else {
        Container::Interleave
    }
}

/// An operand at which an event may match gives an alternative.
proof fn lemma_alternative_at(
    values: Seq<PatternModel>,
    derived: Seq<PatternModel>,
    ordered: bool,
    defs: Defs,
    depth: nat,
    n: nat,
    i: int,
) -> (k: int)
    requires
        n <= values.len(),
        0 <= i < n,
        may_match(values, derived, ordered, i, defs, depth),
    ensures
        0 <= k < alternatives(
            values,
            derived,
            ordered,
            container(ordered),
            defs,
            depth,
            n,
        ).len(),
        alternatives(values, derived, ordered, container(ordered), defs, depth, n)[k]
            == contained(
            container(ordered),
            branch_at(values, derived, ordered, i, defs, depth),
        ),
    decreases n,
{
    let rest = alternatives(
        values,
        derived,
        ordered,
        container(ordered),
        defs,
        depth,
        (n - 1) as nat,
    );
    if i == n - 1 {
        rest.len() as int
    } else {
        lemma_alternative_at(values, derived, ordered, defs, depth, (n - 1) as nat, i)
    }
}

/// An alternative comes from an operand at which an event may match.
proof fn lemma_alternative_from(
    values: Seq<PatternModel>,
    derived: Seq<PatternModel>,
    ordered: bool,
    defs: Defs,
    depth: nat,
    n: nat,
    k: int,
) -> (i: int)
    requires
        n <= values.len(),
        0 <= k < alternatives(
            values,
            derived,
            ordered,
            container(ordered),
            defs,
            depth,
            n,
        ).len(),
    ensures
        may_match(values, derived, ordered, i, defs, depth),
        alternatives(values, derived, ordered, container(ordered), defs, depth, n)[k]
            == contained(
            container(ordered),
            branch_at(values, derived, ordered, i, defs, depth),
        ),
    decreases n,
{
    let rest = alternatives(
        values,
        derived,
        ordered,
        container(ordered),
        defs,
        depth,
        (n - 1) as nat,
    );
    if k < rest.len() {
        lemma_alternative_from(values, derived, ordered, defs, depth, (n - 1) as nat, k)
    } else {
        n - 1
    }
}

// ---------------------------------------------------------------------
// What derivatives accept may follow
// ---------------------------------------------------------------------

/// What the derivative of a pattern accepts, the pattern accepts after the child.
proof fn lemma_sound(
    p: PatternModel,
    child: Child,
    w: Word,
    defs: Defs,
    depth: nat,
    e: nat,
)
    requires
        within(child_derivative(p, child, defs, depth), w, defs, e),
    ensures
        within(p, after(child, w), defs, depth + e),
    decreases depth, p, 0nat, 0nat,
{
    lemma_after(child, w);
    let whole = after(child, w);
    match p {
        PatternModel::Text => {
            if child is Text {
                assert forall|i: int| 0 <= i < whole.len() implies (#[trigger] whole[i]) is Text by {
                    if i > 0 {
                        assert(whole.drop_first()[i - 1] is Text);
                    }
                }
            }
        },
        PatternModel::Group(values) => {
            lemma_positions_sound(true, values, child, w, defs, depth, e);
            assert(together(true, values, values.len(), whole, defs, depth + e));
        },
        PatternModel::Interleave(values) => {
            lemma_positions_sound(false, values, child, w, defs, depth, e);
            assert(together(false, values, values.len(), whole, defs, depth + e));
        },
        PatternModel::Choice(values) => {
            let s = child_derivatives(values, child, defs, depth);
            law_choice_keeps_meaning(s, w, defs, e);
            assert(some_within(s, w, defs, e));
            let i = choose|i: int| 0 <= i < s.len() && within(#[trigger] s[i], w, defs, e);
            assert(s[i] == child_derivative(values[i], child, defs, depth));
            lemma_sound(values[i], child, w, defs, depth, e);
            assert(some_within(values, whole, defs, depth + e));
        },
        PatternModel::OneOrMore(values) => {
            if values.len() > 0 {
                let b = values[0];
                let d = child_derivative(b, child, defs, depth);
                let tail = seq![p, PatternModel::Empty];
                let pair = seq![d, choice_of(tail)];
                law_containers_keep_meaning(true, pair, w, defs, e);
                let (u, v) = lemma_parts(true, pair, 2, w, defs, e);
                lemma_alone(true, pair, u, defs, e);
                lemma_sound(b, child, u, defs, depth, e);
                law_choice_keeps_meaning(tail, v, defs, e);
                assert(some_within(tail, v, defs, e));
                let i = choose|i: int|
                    0 <= i < tail.len() && within(#[trigger] tail[i], v, defs, e);
                let m = if i == 0 {
                    assert(within(p, v, defs, e));
                    assert(some_times(b, v, defs, e));
                    let m = choose|m: nat| #[trigger] positive(m) && times(b, m, v, defs, e);
                    lemma_deeper_times(b, m, v, defs, e, depth + e);
                    m
                } else {
                    assert(times(b, 0, v, defs, depth + e));
                    0
                };
                lemma_times_more(b, after(child, u), m, v, defs, depth + e);
                assert(after(child, u) + v =~= whole);
                assert(positive(m + 1));
                assert(some_times(b, whole, defs, depth + e));
            }
        },
        PatternModel::Ref(target_name) => {
            if depth > 0 && lookup(defs, target_name) is Some {
                let target = lookup(defs, target_name)->0;
                lemma_sound(target, child, w, defs, (depth - 1) as nat, e);
            }
        },
        _ => {},
    }
}

/// What the derivative of a group or an interleave accepts may follow.
proof fn lemma_positions_sound(
    ordered: bool,
    values: Seq<PatternModel>,
    child: Child,
    w: Word,
    defs: Defs,
    depth: nat,
    e: nat,
)
    requires
        within(
            positions_derivative(
                values,
                child_derivatives(values, child, defs, depth),
                ordered,
                container(ordered),
                defs,
                depth,
            ),
            w,
            defs,
            e,
        ),
    ensures
        together(ordered, values, values.len(), after(child, w), defs, depth + e),
    decreases depth, values, values.len() + 1, 0nat,
{
    let derived = child_derivatives(values, child, defs, depth);
    let all = alternatives(
        values,
        derived,
        ordered,
        container(ordered),
        defs,
        depth,
        values.len(),
    );
    law_choice_keeps_meaning(all, w, defs, e);
    assert(some_within(all, w, defs, e));
    let k = choose|k: int| 0 <= k < all.len() && within(#[trigger] all[k], w, defs, e);
    let i = lemma_alternative_from(values, derived, ordered, defs, depth, values.len(), k);
    let branch = branch_at(values, derived, ordered, i, defs, depth);
    law_containers_keep_meaning(ordered, branch, w, defs, e);
    lemma_branch_sound(ordered, values, i, values.len(), child, w, defs, depth, e);
}

/// What an alternative accepts may follow.
proof fn lemma_branch_sound(
    ordered: bool,
    values: Seq<PatternModel>,
    i: int,
    n: nat,
    child: Child,
    w: Word,
    defs: Defs,
    depth: nat,
    e: nat,
)
    requires
        0 <= i < n <= values.len(),
        together(
            ordered,
            branch_at(
                values,
                child_derivatives(values, child, defs, depth),
                ordered,
                i,
                defs,
                depth,
            ),
            n,
            w,
            defs,
            e,
        ),
    ensures
        together(ordered, values, n, after(child, w), defs, depth + e),
    decreases depth, values, n, 0nat,
{
    let derived = child_derivatives(values, child, defs, depth);
    let branch = branch_at(values, derived, ordered, i, defs, depth);
    let none = Seq::<Child>::empty();
    let (u, v) = lemma_parts(ordered, branch, n, w, defs, e);
    if i == n - 1 {
        assert(branch[i] == child_derivative(values[i], child, defs, depth));
        lemma_sound(values[i], child, v, defs, depth, e);
        if ordered {
            let closed = closed_positions(values, defs, depth);
            assert forall|j: int| 0 <= j < i implies #[trigger] branch[j] == closed[j] by {}
            lemma_prefix(ordered, branch, closed, i as nat, u, defs, e);
            lemma_closed_together(ordered, values, i as nat, u, defs, depth, e);
            assert(u =~= none);
        } else {
            assert forall|j: int| 0 <= j < i implies #[trigger] branch[j] == values[j] by {}
            lemma_prefix(ordered, branch, values, i as nat, u, defs, e);
            lemma_deeper_together(ordered, values, i as nat, u, defs, e, depth + e);
        }
        lemma_join_after(ordered, child, u, v, w);
        lemma_whole(
            ordered,
            values,
            n,
            u,
            after(child, v),
            after(child, w),
            defs,
            depth + e,
        );
    } else {
        assert(branch[n - 1] == values[n - 1]);
        lemma_branch_sound(ordered, values, i, (n - 1) as nat, child, u, defs, depth, e);
        lemma_deeper(values[n - 1], v, defs, e, depth + e);
        lemma_join_after(ordered, child, u, v, w);
        lemma_whole(
            ordered,
            values,
            n,
            after(child, u),
            v,
            after(child, w),
            defs,
            depth + e,
        );
    }
}

// ---------------------------------------------------------------------
// What may follow, derivatives accept
// ---------------------------------------------------------------------

/// What a pattern accepts after a child, its derivative accepts.
proof fn lemma_complete(
    p: PatternModel,
    child: Child,
    w: Word,
    defs: Defs,
    d: nat,
    depth: nat,
)
    requires
        within(p, after(child, w), defs, d),
        d <= depth,
    ensures
        within(child_derivative(p, child, defs, depth), w, defs, d),
    decreases depth, p, 0nat, 0nat,
{
    lemma_after(child, w);
    let whole = after(child, w);
    match p {
        PatternModel::Text => {
            assert(whole[0] is Text);
            assert forall|i: int| 0 <= i < w.len() implies (#[trigger] w[i]) is Text by {
                assert(whole[i + 1] is Text);
            }
        },
        PatternModel::Group(values) => {
            lemma_positions_complete(true, values, child, w, defs, d, depth);
        },
        PatternModel::Interleave(values) => {
            lemma_positions_complete(false, values, child, w, defs, d, depth);
        },
        PatternModel::Choice(values) => {
            assert(some_within(values, whole, defs, d));
            let i = choose|i: int|
                0 <= i < values.len() && within(#[trigger] values[i], whole, defs, d);
            lemma_complete(values[i], child, w, defs, d, depth);
            let s = child_derivatives(values, child, defs, depth);
            assert(s[i] == child_derivative(values[i], child, defs, depth));
            assert(some_within(s, w, defs, d));
            law_choice_keeps_meaning(s, w, defs, d);
        },
        PatternModel::OneOrMore(values) => {
            let b = values[0];
            assert(some_times(b, whole, defs, d));
            let m = choose|m: nat| #[trigger] positive(m) && times(b, m, whole, defs, d);
            let (u, v, k) = lemma_first_time(b, m, child, w, defs, d);
            lemma_complete(b, child, u, defs, d, depth);
            let derived = child_derivative(b, child, defs, depth);
            let tail = seq![p, PatternModel::Empty];
            let pair = seq![derived, choice_of(tail)];
            if k == 0 {
                assert(within(tail[1], v, defs, d));
            } else {
                assert(positive(k));
                assert(some_times(b, v, defs, d));
                assert(within(tail[0], v, defs, d));
            }
            assert(some_within(tail, v, defs, d));
            law_choice_keeps_meaning(tail, v, defs, d);
            lemma_alone(true, pair, u, defs, d);
            assert(joins(true, u, v, w));
            lemma_whole(true, pair, 2, u, v, w, defs, d);
            law_containers_keep_meaning(true, pair, w, defs, d);
        },
        PatternModel::Ref(target_name) => {
            let target = lookup(defs, target_name)->0;
            lemma_complete(
                target,
                child,
                w,
                defs,
                (d - 1) as nat,
                (depth - 1) as nat,
            );
            lemma_deeper(
                child_derivative(target, child, defs, (depth - 1) as nat),
                w,
                defs,
                (d - 1) as nat,
                d,
            );
        },
        _ => {},
    }
}

/// What may follow, the derivative of a group or an interleave accepts.
proof fn lemma_positions_complete(
    ordered: bool,
    values: Seq<PatternModel>,
    child: Child,
    w: Word,
    defs: Defs,
    d: nat,
    depth: nat,
)
    requires
        together(ordered, values, values.len(), after(child, w), defs, d),
        d <= depth,
    ensures
        within(
            positions_derivative(
                values,
                child_derivatives(values, child, defs, depth),
                ordered,
                container(ordered),
                defs,
                depth,
            ),
            w,
            defs,
            d,
        ),
    decreases depth, values, values.len() + 1, 0nat,
{
    let derived = child_derivatives(values, child, defs, depth);
    let i = lemma_branch_complete(ordered, values, values.len(), child, w, defs, d, depth);
    let branch = branch_at(values, derived, ordered, i, defs, depth);
    law_containers_keep_meaning(ordered, branch, w, defs, d);
    let all = alternatives(
        values,
        derived,
        ordered,
        container(ordered),
        defs,
        depth,
        values.len(),
    );
    let k = lemma_alternative_at(values, derived, ordered, defs, depth, values.len(), i);
    assert(within(all[k], w, defs, d));
    assert(some_within(all, w, defs, d));
    law_choice_keeps_meaning(all, w, defs, d);
}

/// What may follow, some alternative accepts.
proof fn lemma_branch_complete(
    ordered: bool,
    values: Seq<PatternModel>,
    n: nat,
    child: Child,
    w: Word,
    defs: Defs,
    d: nat,
    depth: nat,
) -> (i: int)
    requires
        n <= values.len(),
        together(ordered, values, n, after(child, w), defs, d),
        d <= depth,
    ensures
        0 <= i < n,
        may_match(
            values,
            child_derivatives(values, child, defs, depth),
            ordered,
            i,
            defs,
            depth,
        ),
        together(
            ordered,
            branch_at(
                values,
                child_derivatives(values, child, defs, depth),
                ordered,
                i,
                defs,
                depth,
            ),
            n,
            w,
            defs,
            d,
        ),
    decreases depth, values, n, 0nat,
{
    let derived = child_derivatives(values, child, defs, depth);
    let none = Seq::<Child>::empty();
    lemma_after(child, w);
    assert(n > 0);
    let m = (n - 1) as nat;
    let (u, v) = lemma_parts(ordered, values, n, after(child, w), defs, d);
    lemma_join_first(ordered, child, u, v, w);
    if u.len() > 0 && u == after(child, u.drop_first()) && joins(ordered, u.drop_first(), v, w) {
        let rest = u.drop_first();
        let i = lemma_branch_complete(ordered, values, m, child, rest, defs, d, depth);
        let branch = branch_at(values, derived, ordered, i, defs, depth);
        assert(branch[n - 1] == values[n - 1]);
        lemma_whole(ordered, branch, n, rest, v, w, defs, d);
        i
    } else {
        let rest = v.drop_first();
        let i = n - 1;
        lemma_complete(values[i], child, rest, defs, d, depth);
        assert(derived[i] == child_derivative(values[i], child, defs, depth));
        let branch = branch_at(values, derived, ordered, i, defs, depth);
        assert(branch[i] == derived[i]);
        if ordered {
            assert(u =~= none);
            lemma_nothing_together(ordered, values, m, defs, d);
            assert forall|j: int| 0 <= j < i implies structurally_empty(
                #[trigger] values[j],
                defs,
                depth,
            ) by {
                assert(within(values[j], none, defs, d));
                lemma_deeper(values[j], none, defs, d, depth);
                lemma_accepts_nothing(values[j], defs, depth);
            }
            assert(prefix_empty(values, i, defs, depth));
            assert forall|j: int| 0 <= j < m implies within(#[trigger] branch[j], none, defs, d) by {
                assert(within(values[j], none, defs, d));
                lemma_closed_complete(values[j], defs, d, depth);
            }
            lemma_nothing_together(ordered, branch, m, defs, d);
        } else {
            assert forall|j: int| 0 <= j < m implies #[trigger] values[j] == branch[j] by {}
            lemma_prefix(ordered, values, branch, m, u, defs, d);
        }
        lemma_whole(ordered, branch, n, u, rest, w, defs, d);
        i
    }
}

// ---------------------------------------------------------------------
// What it comes to
// ---------------------------------------------------------------------

/// The derivative of a pattern with respect to a child accepts just the sequences
/// that may follow that child. References are followed to a depth; whatever it is, the
/// derivative accepts nothing else, and it accepts all that the pattern accepts within it.
pub proof fn law_derivative_accepts_what_may_follow(
    p: PatternModel,
    child: Child,
    w: Word,
    defs: Defs,
    depth: nat,
)
    ensures
        accepts(child_derivative(p, child, defs, depth), w, defs) ==> accepts(
            p,
            after(child, w),
            defs,
        ),
        within(p, after(child, w), defs, depth) ==> within(
            child_derivative(p, child, defs, depth),
            w,
            defs,
            depth,
        ),
{
    let derived = child_derivative(p, child, defs, depth);
    if accepts(derived, w, defs) {
        let e = choose|e: nat| #[trigger] within(derived, w, defs, e);
        lemma_sound(p, child, w, defs, depth, e);
    }
    if within(p, after(child, w), defs, depth) {
        lemma_complete(p, child, w, defs, depth, depth);
    }
}

/// What is left of a pattern after children, one after the other.
pub open spec fn remaining(p: PatternModel, w: Word, defs: Defs, depth: nat) -> PatternModel
    decreases w.len(),
{
    if w.len() == 0 {
        p
    } else {
        remaining(child_derivative(p, w[0], defs, depth), w.drop_first(), defs, depth)
    }
}

/// A sequence of children is accepted exactly where nothing more is needed after them: where
/// what is left accepts that there is no child, the pattern accepts the sequence, and where
/// the pattern accepts it within the depth to which references are followed, what is left
/// accepts that there is no child.
pub proof fn law_child_sequences_are_recognized(
    p: PatternModel,
    w: Word,
    defs: Defs,
    depth: nat,
)
    ensures
        within(remaining(p, w, defs, depth), Seq::empty(), defs, depth) ==> accepts(p, w, defs),
        within(p, w, defs, depth) ==> within(
            remaining(p, w, defs, depth),
            Seq::empty(),
            defs,
            depth,
        ),
    decreases w.len(),
{
    let none = Seq::<Child>::empty();
    if w.len() == 0 {
        assert(w =~= none);
    } else {
        let rest = w.drop_first();
        assert(w =~= after(w[0], rest));
        law_derivative_accepts_what_may_follow(p, w[0], rest, defs, depth);
        law_child_sequences_are_recognized(
            child_derivative(p, w[0], defs, depth),
            rest,
            defs,
            depth,
        );
    }
}

} // verus!
