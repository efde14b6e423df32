//! A map from strings, kept as a vector of entries in increasing order of keys.
use vstd::prelude::*;

use crate::text::{lemma_text_lt_total, lemma_text_lt_transitive, precedes, same, text_lt, Text};

verus! {

/// The value that `key` has in a list of entries: that of the first entry with it.
pub open spec fn lookup<A>(entries: Seq<(Text, A)>, key: Text) -> Option<A>
    decreases entries.len(),
{
    if entries.len() == 0 {
        None
    } else if entries[0].0 == key {
        Some(entries[0].1)
    } else {
        lookup(entries.drop_first(), key)
    }
}

/// Whether some entry has the key.
pub open spec fn has_key<A>(entries: Seq<(Text, A)>, key: Text) -> bool {
    lookup(entries, key) is Some
}

/// The entries with `key` bound to `value`, in place where the key is there and
/// before the first greater key where it is not.
pub open spec fn inserted<A>(entries: Seq<(Text, A)>, key: Text, value: A) -> Seq<(Text, A)>
    decreases entries.len(),
{
    if entries.len() == 0 {
        seq![(key, value)]
    } else if entries[0].0 == key {
        seq![(key, value)] + entries.drop_first()
    } else if text_lt(key, entries[0].0) {
        seq![(key, value)] + entries
    } else {
        seq![entries[0]] + inserted(entries.drop_first(), key, value)
    }
}

/// The entries are in strictly increasing order of keys.
pub open spec fn sorted<A>(entries: Seq<(Text, A)>) -> bool {
    forall|i: int, j: int|
        #![trigger entries[i], entries[j]]
        0 <= i < j < entries.len() ==> text_lt(entries[i].0, entries[j].0)
}

/// The entry at an index of its key decides a lookup, where no earlier one has it.
pub proof fn lemma_lookup_at<A>(entries: Seq<(Text, A)>, key: Text, i: int)
    requires
        0 <= i < entries.len(),
        entries[i].0 == key,
        forall|j: int| 0 <= j < i ==> (#[trigger] entries[j]).0 != key,
    ensures
        lookup(entries, key) == Some(entries[i].1),
    decreases i,
{
    if i > 0 {
        assert(entries[0].0 != key);
        let rest = entries.drop_first();
        assert forall|j: int| 0 <= j < i - 1 implies (#[trigger] rest[j]).0 != key by {
            assert(rest[j] == entries[j + 1]);
        }
        lemma_lookup_at(rest, key, i - 1);
    }
}

/// A key that no entry has is not found.
pub proof fn lemma_lookup_absent<A>(entries: Seq<(Text, A)>, key: Text)
    requires
        forall|j: int| 0 <= j < entries.len() ==> (#[trigger] entries[j]).0 != key,
    ensures
        lookup(entries, key) is None,
    decreases entries.len(),
{
    if entries.len() > 0 {
        assert(entries[0].0 != key);
        let rest = entries.drop_first();
        assert forall|j: int| 0 <= j < rest.len() implies (#[trigger] rest[j]).0 != key by {
            assert(rest[j] == entries[j + 1]);
        }
        lemma_lookup_absent(rest, key);
    }
}

/// A key that is found stands at some index.
pub proof fn lemma_lookup_index<A>(entries: Seq<(Text, A)>, key: Text) -> (i: int)
    requires
        has_key(entries, key),
    ensures
        0 <= i < entries.len(),
        entries[i].0 == key,
        lookup(entries, key) == Some(entries[i].1),
    decreases entries.len(),
{
    if entries[0].0 == key {
        0
    } else {
        let i = lemma_lookup_index(entries.drop_first(), key);
        i + 1
    }
}

/// The key of an entry is a key.
pub proof fn lemma_has_key_at<A>(entries: Seq<(Text, A)>, i: int)
    requires
        0 <= i < entries.len(),
    ensures
        has_key(entries, entries[i].0),
    decreases entries.len(),
{
    if entries[0].0 != entries[i].0 {
        let rest = entries.drop_first();
        assert(rest[i - 1] == entries[i]);
        lemma_has_key_at(rest, i - 1);
    }
}

/// A key that was inserted has the value, and every other key has the one that it had.
pub proof fn lemma_inserted_lookup<A>(entries: Seq<(Text, A)>, key: Text, value: A, other: Text)
    ensures
        lookup(inserted(entries, key, value), key) == Some(value),
        other != key ==> lookup(inserted(entries, key, value), other) == lookup(entries, other),
    decreases entries.len(),
{
    let out = inserted(entries, key, value);
    if entries.len() == 0 {
        assert(out.drop_first() =~= entries);
    } else if entries[0].0 == key {
        assert(out.drop_first() =~= entries.drop_first());
    } else if text_lt(key, entries[0].0) {
        assert(out.drop_first() =~= entries);
    } else {
        let rest = entries.drop_first();
        lemma_inserted_lookup(rest, key, value, other);
        assert(out.drop_first() =~= inserted(rest, key, value));
    }
}

/// Inserting into sorted entries keeps every other key's value and gives the key
/// the new one, and leaves the entries sorted.
pub proof fn lemma_inserted<A>(entries: Seq<(Text, A)>, key: Text, value: A)
    requires
        sorted(entries),
    ensures
        sorted(inserted(entries, key, value)),
        lookup(inserted(entries, key, value), key) == Some(value),
        forall|other: Text|
            other != key ==> #[trigger] lookup(inserted(entries, key, value), other) == lookup(
                entries,
                other,
            ),
        forall|i: int|
            0 <= i < inserted(entries, key, value).len() ==> (#[trigger] inserted(
                entries,
                key,
                value,
            )[i]).0 == key || exists|j: int|
                0 <= j < entries.len() && entries[j].0 == inserted(entries, key, value)[i].0,
    decreases entries.len(),
{
    let out = inserted(entries, key, value);
    if entries.len() == 0 {
        assert(out.drop_first() =~= Seq::empty());
    } else if entries[0].0 == key {
        assert(out.drop_first() =~= entries.drop_first());
        assert forall|i: int, j: int|
            #![trigger out[i], out[j]]
            0 <= i < j < out.len() implies text_lt(out[i].0, out[j].0) by {
            assert(entries[i].0 == out[i].0);
            assert(entries[j].0 == out[j].0);
        }
        assert forall|i: int| 0 <= i < out.len() implies (#[trigger] out[i]).0 == key || exists|
            j: int,
        | 0 <= j < entries.len() && entries[j].0 == out[i].0 by {
            assert(entries[i].0 == out[i].0);
        }
    } else if text_lt(key, entries[0].0) {
        assert(out.drop_first() =~= entries);
        assert forall|i: int, j: int|
            #![trigger out[i], out[j]]
            0 <= i < j < out.len() implies text_lt(out[i].0, out[j].0) by {
            if i == 0 {
                if j > 1 {
                    assert(text_lt(entries[0].0, entries[j - 1].0));
                    lemma_text_lt_transitive(key, entries[0].0, entries[j - 1].0);
                }
            } else {
                assert(out[i] == entries[i - 1]);
                assert(out[j] == entries[j - 1]);
            }
        }
        assert forall|i: int| 0 <= i < out.len() implies (#[trigger] out[i]).0 == key || exists|
            j: int,
        | 0 <= j < entries.len() && entries[j].0 == out[i].0 by {
            if i > 0 {
                assert(entries[i - 1].0 == out[i].0);
            }
        }
    } else {
        let rest = entries.drop_first();
        let tail = inserted(rest, key, value);
        assert forall|i: int, j: int|
            #![trigger rest[i], rest[j]]
            0 <= i < j < rest.len() implies text_lt(rest[i].0, rest[j].0) by {
            assert(rest[i] == entries[i + 1]);
            assert(rest[j] == entries[j + 1]);
        }
        lemma_inserted(rest, key, value);
        assert(out.drop_first() =~= tail);
        if !text_lt(entries[0].0, key) {
            lemma_text_lt_total(entries[0].0, key);
        }
        assert forall|i: int, j: int|
            #![trigger out[i], out[j]]
            0 <= i < j < out.len() implies text_lt(out[i].0, out[j].0) by {
            assert(out[j] == tail[j - 1]);
            if i == 0 {
                if tail[j - 1].0 != key {
                    let k = choose|k: int| 0 <= k < rest.len() && rest[k].0 == tail[j - 1].0;
                    assert(entries[k + 1].0 == tail[j - 1].0);
                }
            } else {
                assert(out[i] == tail[i - 1]);
            }
        }
        assert forall|i: int| 0 <= i < out.len() implies (#[trigger] out[i]).0 == key || exists|
            j: int,
        | 0 <= j < entries.len() && entries[j].0 == out[i].0 by {
            if i == 0 {
                assert(entries[0].0 == out[0].0);
            } else {
                assert(out[i] == tail[i - 1]);
                if out[i].0 != key {
                    let k = choose|k: int| 0 <= k < rest.len() && rest[k].0 == tail[i - 1].0;
                    assert(entries[k + 1].0 == out[i].0);
                }
            }
        }
    }
    assert forall|other: Text| other != key implies #[trigger] lookup(out, other) == lookup(
        entries,
        other,
    ) by {
        reveal_with_fuel(lookup, 2);
        if entries.len() == 0 {
            assert(out.drop_first().len() == 0);
        } else if entries[0].0 == key {
            assert(out.drop_first() =~= entries.drop_first());
        } else if text_lt(key, entries[0].0) {
            assert(out.drop_first() =~= entries);
        } else {
            assert(out[0] == entries[0]);
            assert(out.drop_first() =~= inserted(entries.drop_first(), key, value));
            assert(lookup(inserted(entries.drop_first(), key, value), other) == lookup(
                entries.drop_first(),
                other,
            ));
        }
    }
}

/// What is there after an insertion was there before, or was inserted.
pub proof fn lemma_inserted_entries<A>(entries: Seq<(Text, A)>, key: Text, value: A)
    ensures
        forall|i: int|
            0 <= i < inserted(entries, key, value).len() ==> (#[trigger] inserted(
                entries,
                key,
                value,
            )[i]) == (key, value) || entries.contains(inserted(entries, key, value)[i]),
    decreases entries.len(),
{
    let out = inserted(entries, key, value);
    assert forall|i: int| 0 <= i < out.len() implies #[trigger] out[i] == (key, value)
        || entries.contains(out[i]) by {
        if entries.len() == 0 {
        } else if entries[0].0 == key {
            if i > 0 {
                assert(out[i] == entries[i]);
            }
        } else if text_lt(key, entries[0].0) {
            if i > 0 {
                assert(out[i] == entries[i - 1]);
            }
        } else {
            let rest = entries.drop_first();
            lemma_inserted_entries(rest, key, value);
            if i == 0 {
                assert(out[0] == entries[0]);
            } else {
                let tail = inserted(rest, key, value);
                assert(out[i] == tail[i - 1]);
                if tail[i - 1] != (key, value) {
                    let j = choose|j: int| 0 <= j < rest.len() && rest[j] == tail[i - 1];
                    assert(entries[j + 1] == out[i]);
                }
            }
        }
    }
}

/// Keys are still there after an insertion, and what was inserted is.
pub proof fn lemma_inserted_keeps<A>(entries: Seq<(Text, A)>, key: Text, value: A)
    ensures
        has_key(inserted(entries, key, value), key),
        forall|other: Text|
            has_key(entries, other) ==> #[trigger] has_key(inserted(entries, key, value), other),
    decreases entries.len(),
{
    let out = inserted(entries, key, value);
    if entries.len() == 0 {
        assert(out[0] == (key, value));
        lemma_has_key_at(out, 0);
    } else if entries[0].0 == key {
        assert(out[0] == (key, value));
        lemma_has_key_at(out, 0);
        assert(out.drop_first() =~= entries.drop_first());
    } else if text_lt(key, entries[0].0) {
        assert(out[0] == (key, value));
        lemma_has_key_at(out, 0);
        assert(out.drop_first() =~= entries);
    } else {
        let rest = entries.drop_first();
        lemma_inserted_keeps(rest, key, value);
        assert(out[0] == entries[0]);
        assert(out.drop_first() =~= inserted(rest, key, value));
        assert forall|other: Text| has_key(entries, other) implies #[trigger] has_key(
            out,
            other,
        ) by {
            if entries[0].0 != other {
                assert(has_key(rest, other));
                assert(has_key(inserted(rest, key, value), other));
            }
        }
    }
}

/// A map from strings to values, iterated in increasing order of keys.
#[derive(Debug, PartialEq, Eq)]
pub struct StringMap<A> {
    entries: Vec<(String, A)>,
}

/// A value that can be copied without changing what it stands for.
pub trait Duplicate: View + Sized {
    /// The copy.
    fn duplicate(&self) -> (r: Self)
        ensures
            r@ == self@,
    ;
}

impl Duplicate for String {
    fn duplicate(&self) -> (r: Self) {
        self.clone()
    }
}

impl<A: View> View for StringMap<A> {
    type V = Seq<(Text, A::V)>;

    closed spec fn view(&self) -> Seq<(Text, A::V)> {
        Seq::new(self.entries@.len(), |i: int| (self.entries@[i].0@, self.entries@[i].1@))
    }
}

impl<A: View> StringMap<A> {
    /// The map without entries.
    pub fn new() -> (r: Self)
        ensures
            r@ == Seq::<(Text, A::V)>::empty(),
    {
        let r = StringMap { entries: Vec::new() };
        assert(r@ =~= Seq::<(Text, A::V)>::empty());
        r
    }

    /// How many entries there are.
    pub fn len(&self) -> (r: usize)
        ensures
            r == self@.len(),
    {
        self.entries.len()
    }

    /// The key at an index.
    pub fn key_at(&self, i: usize) -> (r: &String)
        requires
            i < self@.len(),
        ensures
            r@ == self@[i as int].0,
    {
        &self.entries[i].0
    }

    /// The value at an index.
    pub fn value_at(&self, i: usize) -> (r: &A)
        requires
            i < self@.len(),
        ensures
            r@ == self@[i as int].1,
    {
        &self.entries[i].1
    }

    /// The value of a key.
    pub fn get(&self, key: &str) -> (r: Option<&A>)
        ensures
            match r {
                Some(v) => lookup(self@, key@) == Some(v@),
                None => lookup(self@, key@) is None,
            },
    {
        let mut i: usize = 0;
        while i < self.entries.len()
            invariant
                i <= self.entries.len(),
                forall|j: int| 0 <= j < i ==> (#[trigger] self@[j]).0 != key@,
            decreases self.entries.len() - i,
        {
            if same(self.entries[i].0.as_str(), key) {
                proof {
                    lemma_lookup_at(self@, key@, i as int);
                }
                return Some(&self.entries[i].1);
            }
            i += 1;
        }
        proof {
            lemma_lookup_absent(self@, key@);
        }
        None
    }

    /// Whether the key has a value.
    pub fn contains_key(&self, key: &str) -> (r: bool)
        ensures
            r == has_key(self@, key@),
    {
        self.get(key).is_some()
    }

    /// Binds the key to the value.
    pub fn insert(&mut self, key: String, value: A)
        ensures
            final(self)@ == inserted(old(self)@, key@, value@),
    {
        let ghost before = self@;
        let mut i: usize = 0;
        assert(before.take(0) + inserted(before.skip(0), key@, value@) =~= inserted(
            before,
            key@,
            value@,
        )) by {
            assert(before.skip(0) =~= before);
        }
        while i < self.entries.len()
            invariant
                i <= self.entries.len(),
                self@ == before,
                before == old(self)@,
                before.take(i as int) + inserted(before.skip(i as int), key@, value@) == inserted(
                    before,
                    key@,
                    value@,
                ),
            decreases self.entries.len() - i,
        {
            let ghost rest = before.skip(i as int);
            assert(rest[0] == before[i as int]);
            if same(self.entries[i].0.as_str(), key.as_str()) {
                self.entries.set(i, (key, value));
                assert(self@ =~= before.take(i as int) + (seq![(key@, value@)]
                    + rest.drop_first()));
                return;
            }
            if precedes(key.as_str(), self.entries[i].0.as_str()) {
                self.entries.insert(i, (key, value));
                assert(self@ =~= before.take(i as int) + (seq![(key@, value@)] + rest));
                return;
            }
            assert(rest.drop_first() =~= before.skip(i + 1));
            assert(before.take(i as int) + (seq![rest[0]] + inserted(
                before.skip(i + 1),
                key@,
                value@,
            )) =~= before.take(i + 1) + inserted(before.skip(i + 1), key@, value@));
            i += 1;
        }
        let ghost k = key@;
        let ghost v = value@;
        self.entries.push((key, value));
        assert(self@ =~= before.take(i as int) + seq![(k, v)]);
    }
}

impl<A: Duplicate> Duplicate for StringMap<A> {
    fn duplicate(&self) -> (r: Self) {
        let mut out: Vec<(String, A)> = Vec::new();
        let mut i: usize = 0;
        while i < self.entries.len()
            invariant
                i <= self.entries.len(),
                out.len() == i,
                forall|j: int|
                    0 <= j < i ==> (#[trigger] out@[j]).0@ == self.entries@[j].0@ && out@[j].1@
                        == self.entries@[j].1@,
            decreases self.entries.len() - i,
        {
            out.push((self.entries[i].0.clone(), self.entries[i].1.duplicate()));
            i += 1;
        }
        let r = StringMap { entries: out };
        assert(r@ =~= self@);
        r
    }
}

impl<A: Duplicate> Clone for StringMap<A> {
    fn clone(&self) -> (r: Self)
        ensures
            r@ == self@,
    {
        self.duplicate()
    }
}

} // verus!
