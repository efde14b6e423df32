//! The algebra by which patterns are kept small: what a group, an interleave, a
//! choice and a repetition of given patterns amount to.
use vstd::prelude::*;

use crate::grammar::{patterns_of, Pattern, PatternModel};

verus! {

/// The patterns that differ from `left_out`, in order.
pub open spec fn without(s: Seq<PatternModel>, left_out: PatternModel) -> Seq<PatternModel>
    decreases s.len(),
{
    if s.len() == 0 {
        s
    } else {
        let rest = without(s.drop_last(), left_out);
        if s.last() == left_out {
            rest
        } else {
            rest.push(s.last())
        }
    }
}

/// The patterns without `empty`, which adds nothing to a group or an interleave; a
/// single pattern stays as it is.
pub open spec fn without_identity(s: Seq<PatternModel>) -> Seq<PatternModel> {
    if s.len() > 1 {
        without(s, PatternModel::Empty)
    } else {
        s
    }
}

/// What a group of patterns amounts to.
pub open spec fn group_of(s: Seq<PatternModel>) -> PatternModel {
    if s.contains(PatternModel::NotAllowed) {
        PatternModel::NotAllowed
    } else {
        let rest = without_identity(s);
        if rest.len() == 0 {
            PatternModel::Empty
        } else if rest.len() == 1 {
            rest[0]
        } else {
            PatternModel::Group(rest)
        }
    }
}

/// What an interleave of patterns amounts to.
pub open spec fn interleave_of(s: Seq<PatternModel>) -> PatternModel {
    if s.contains(PatternModel::NotAllowed) {
        PatternModel::NotAllowed
    } else {
        let rest = without_identity(s);
        if rest.len() == 0 {
            PatternModel::Empty
        } else if rest.len() == 1 {
            rest[0]
        } else {
            PatternModel::Interleave(rest)
        }
    }
}

/// What a choice of patterns amounts to.
pub open spec fn choice_of(s: Seq<PatternModel>) -> PatternModel {
    let rest = without(s, PatternModel::NotAllowed);
    if rest.len() == 0 {
        PatternModel::NotAllowed
    } else if rest.len() == 1 {
        rest[0]
    } else {
        PatternModel::Choice(rest)
    }
}

/// What a repetition of a pattern amounts to.
pub open spec fn one_or_more_of(body: PatternModel) -> PatternModel {
    if body is NotAllowed {
        PatternModel::NotAllowed
    } else {
        PatternModel::OneOrMore(seq![body])
    }
}

/// A sequence with one more pattern, without `left_out`.
pub proof fn lemma_without_push(s: Seq<PatternModel>, p: PatternModel, left_out: PatternModel)
    ensures
        without(s.push(p), left_out) == (if p == left_out {
            without(s, left_out)
        } else {
            without(s, left_out).push(p)
        }),
{
    assert(s.push(p).drop_last() =~= s);
}

/// Only what stood in the sequence is left, and none of what was left out.
pub proof fn lemma_without_members(s: Seq<PatternModel>, left_out: PatternModel)
    ensures
        without(s, left_out).len() <= s.len(),
        !without(s, left_out).contains(left_out),
        forall|p: PatternModel|
            p != left_out ==> (#[trigger] without(s, left_out).contains(p) <==> s.contains(p)),
    decreases s.len(),
{
    let w = without(s, left_out);
    if s.len() > 0 {
        let front = s.drop_last();
        let rest = without(front, left_out);
        lemma_without_members(front, left_out);
        assert(s =~= front.push(s.last()));
        assert forall|p: PatternModel| p != left_out implies (#[trigger] w.contains(p)
            <==> s.contains(p)) by {
            if s.contains(p) {
                let i = choose|i: int| 0 <= i < s.len() && s[i] == p;
                if i < front.len() {
                    assert(front[i] == p);
                    assert(rest.contains(p));
                    let j = choose|j: int| 0 <= j < rest.len() && rest[j] == p;
                    assert(w[j] == p);
                } else {
                    assert(w.last() == p);
                }
            }
            if w.contains(p) {
                let j = choose|j: int| 0 <= j < w.len() && w[j] == p;
                if j < rest.len() {
                    assert(rest[j] == p);
                    assert(rest.contains(p));
                    assert(front.contains(p));
                    let i = choose|i: int| 0 <= i < front.len() && front[i] == p;
                    assert(s[i] == p);
                } else {
                    assert(s[s.len() - 1] == p);
                }
            }
        }
        if w.contains(left_out) {
            let j = choose|j: int| 0 <= j < w.len() && w[j] == left_out;
            if j < rest.len() {
                assert(rest[j] == left_out);
            }
        }
    }
}

/// Whether the pattern is `notAllowed`.
pub fn is_not_allowed(pattern: &Pattern) -> (r: bool)
    ensures
        r == (pattern@ is NotAllowed),
{
    matches!(pattern, Pattern::NotAllowed)
}

/// Whether the pattern is `empty`.
pub fn is_empty_pattern(pattern: &Pattern) -> (r: bool)
    ensures
        r == (pattern@ is Empty),
{
    matches!(pattern, Pattern::Empty)
}

/// Whether some pattern is `notAllowed`.
fn contains_not_allowed(values: &Vec<Pattern>) -> (r: bool)
    ensures
        r == patterns_of(values@).contains(PatternModel::NotAllowed),
{
    let mut i: usize = 0;
    while i < values.len()
        invariant
            i <= values.len(),
            forall|j: int|
                0 <= j < i ==> #[trigger] patterns_of(values@)[j] != PatternModel::NotAllowed,
        decreases values.len() - i,
    {
        if is_not_allowed(&values[i]) {
            assert(patterns_of(values@)[i as int] == PatternModel::NotAllowed);
            return true;
        }
        i += 1;
    }
    false
}

/// Leaves out `notAllowed`.
pub fn drop_not_allowed(values: Vec<Pattern>) -> (r: Vec<Pattern>)
    ensures
        patterns_of(r@) == without(patterns_of(values@), PatternModel::NotAllowed),
{
    let ghost all = patterns_of(values@);
    let mut out: Vec<Pattern> = Vec::new();
    for value in it: values
        invariant
            all == patterns_of(it.seq()),
            patterns_of(out@) == without(all.take(it.index()), PatternModel::NotAllowed),
    {
        let ghost before = patterns_of(out@);
        let ghost model = value@;
        proof {
            lemma_without_push(all.take(it.index()), model, PatternModel::NotAllowed);
            assert(all.take(it.index() + 1) =~= all.take(it.index()).push(model));
        }
        if !is_not_allowed(&value) {
            out.push(value);
            assert(patterns_of(out@) =~= before.push(model));
        }
    }
    assert(all.take(all.len() as int) =~= all);
    out
}

/// Leaves out `empty`, which is the identity of groups and interleaves, so that one
/// remaining operand does not stay wrapped.
pub fn drop_identity_empty(values: Vec<Pattern>) -> (r: Vec<Pattern>)
    ensures
        patterns_of(r@) == without_identity(patterns_of(values@)),
{
    if values.len() <= 1 {
        return values;
    }
    let ghost all = patterns_of(values@);
    let mut out: Vec<Pattern> = Vec::new();
    for value in it: values
        invariant
            all == patterns_of(it.seq()),
            patterns_of(out@) == without(all.take(it.index()), PatternModel::Empty),
    {
        let ghost before = patterns_of(out@);
        let ghost model = value@;
        proof {
            lemma_without_push(all.take(it.index()), model, PatternModel::Empty);
            assert(all.take(it.index() + 1) =~= all.take(it.index()).push(model));
        }
        if !is_empty_pattern(&value) {
            out.push(value);
            assert(patterns_of(out@) =~= before.push(model));
        }
    }
    assert(all.take(all.len() as int) =~= all);
    out
}

/// The group of the patterns, kept small: `notAllowed` absorbs it and `empty` is
/// left out.
pub fn group(values: Vec<Pattern>) -> (r: Pattern)
    ensures
        r@ == group_of(patterns_of(values@)),
{
    if contains_not_allowed(&values) {
        return Pattern::NotAllowed;
    }
    let mut rest = drop_identity_empty(values);
    if rest.len() == 0 {
        Pattern::Empty
    } else if rest.len() == 1 {
        rest.pop().unwrap()
    } else {
        let r = Pattern::Group(rest);
        proof {
            r.lemma_model();
        }
        r
    }
}

/// The choice of the patterns, kept small: `notAllowed` is left out.
pub fn choice(values: Vec<Pattern>) -> (r: Pattern)
    ensures
        r@ == choice_of(patterns_of(values@)),
{
    let mut rest = drop_not_allowed(values);
    if rest.len() == 0 {
        Pattern::NotAllowed
    } else if rest.len() == 1 {
        rest.pop().unwrap()
    } else {
        let r = Pattern::Choice(rest);
        proof {
            r.lemma_model();
        }
        r
    }
}

/// The interleave of the patterns, kept small: `notAllowed` absorbs it and `empty`
/// is left out.
pub fn interleave(values: Vec<Pattern>) -> (r: Pattern)
    ensures
        r@ == interleave_of(patterns_of(values@)),
{
    if contains_not_allowed(&values) {
        return Pattern::NotAllowed;
    }
    let mut rest = drop_identity_empty(values);
    if rest.len() == 0 {
        Pattern::Empty
    } else if rest.len() == 1 {
        rest.pop().unwrap()
    } else {
        let r = Pattern::Interleave(rest);
        proof {
            r.lemma_model();
        }
        r
    }
}

/// The repetition of the pattern, kept small: `notAllowed` absorbs it.
pub fn one_or_more(body: Pattern) -> (r: Pattern)
    ensures
        r@ == one_or_more_of(body@),
{
    if is_not_allowed(&body) {
        Pattern::NotAllowed
    } else {
        let ghost model = body@;
        let r = Pattern::OneOrMore(vec![body]);
        proof {
            r.lemma_model();
            assert(patterns_of(r->OneOrMore_0@) =~= seq![model]);
        }
        r
    }
}

/// A copy of the patterns with two in place of a vector.
pub fn pair(first: Pattern, second: Pattern) -> (r: Vec<Pattern>)
    ensures
        patterns_of(r@) == seq![first@, second@],
{
    let r = vec![first, second];
    assert(patterns_of(r@) =~= seq![first@, second@]);
    r
}

/// A vector of one pattern.
pub fn single(pattern: Pattern) -> (r: Vec<Pattern>)
    ensures
        patterns_of(r@) == seq![pattern@],
{
    let r = vec![pattern];
    assert(patterns_of(r@) =~= seq![pattern@]);
    r
}

// ---------------------------------------------------------------------
// Laws
// ---------------------------------------------------------------------

/// `notAllowed` absorbs a group and an interleave.
pub proof fn law_not_allowed_absorbs(s: Seq<PatternModel>)
    requires
        s.contains(PatternModel::NotAllowed),
    ensures
        group_of(s) == PatternModel::NotAllowed,
        interleave_of(s) == PatternModel::NotAllowed,
{
}

/// `empty` is the identity of groups and of interleaves, on either side.
pub proof fn law_empty_is_identity(p: PatternModel)
    ensures
        group_of(seq![p, PatternModel::Empty]) == p,
        group_of(seq![PatternModel::Empty, p]) == p,
        interleave_of(seq![p, PatternModel::Empty]) == p,
        interleave_of(seq![PatternModel::Empty, p]) == p,
{
    let e = PatternModel::Empty;
    reveal_with_fuel(without, 3);
    assert(seq![p, e].drop_last() =~= seq![p]);
    assert(seq![e, p].drop_last() =~= seq![e]);
    assert(seq![p].drop_last() =~= Seq::<PatternModel>::empty());
    assert(seq![e].drop_last() =~= Seq::<PatternModel>::empty());
    if p is NotAllowed {
        assert(seq![p, e][0] == p);
        assert(seq![e, p][1] == p);
    }
}

/// `notAllowed` is the identity of choices, on either side.
pub proof fn law_not_allowed_is_choice_identity(p: PatternModel)
    ensures
        choice_of(seq![p, PatternModel::NotAllowed]) == p,
        choice_of(seq![PatternModel::NotAllowed, p]) == p,
{
    let n = PatternModel::NotAllowed;
    reveal_with_fuel(without, 3);
    assert(seq![p, n].drop_last() =~= seq![p]);
    assert(seq![n, p].drop_last() =~= seq![n]);
    assert(seq![p].drop_last() =~= Seq::<PatternModel>::empty());
    assert(seq![n].drop_last() =~= Seq::<PatternModel>::empty());
}

/// A choice is `notAllowed` only where every alternative is.
pub proof fn law_choice_not_allowed(s: Seq<PatternModel>)
    ensures
        choice_of(s) is NotAllowed <==> forall|i: int|
            0 <= i < s.len() ==> #[trigger] s[i] is NotAllowed,
{
    let n = PatternModel::NotAllowed;
    lemma_without_members(s, n);
    let rest = without(s, n);
    if rest.len() > 0 {
        assert(rest.contains(rest[0]));
        assert(rest[0] != n);
        assert(s.contains(rest[0]));
        let i = choose|i: int| 0 <= i < s.len() && s[i] == rest[0];
        assert(!(s[i] is NotAllowed));
    } else {
        assert forall|i: int| 0 <= i < s.len() implies #[trigger] s[i] is NotAllowed by {
            if !(s[i] is NotAllowed) {
                assert(s.contains(s[i]));
                assert(rest.contains(s[i]));
            }
        }
    }
}

} // verus!
