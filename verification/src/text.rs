//! Text as sequences of characters: the operations on strings that the rest of
//! the library is stated over.
use vstd::prelude::*;
use vstd::slice::slice_subrange;

verus! {

/// The mathematical model of every string: its characters, in order.
pub type Text = Seq<char>;

/// `String::push` appends one character at the end.
pub assume_specification[ String::push ](s: &mut String, ch: char)
    ensures
        final(s)@ == old(s)@.push(ch),
;

/// Anything that can be turned into an owned string without losing a character.
pub trait IntoText: Sized {
    /// The characters the value stands for.
    spec fn chars_of(&self) -> Text;

    /// The owned string.
    fn into_text(self) -> (r: String)
        ensures
            r@ == self.chars_of(),
    ;
}

impl IntoText for String {
    open spec fn chars_of(&self) -> Text {
        self@
    }

    fn into_text(self) -> (r: String) {
        self
    }
}

impl IntoText for &str {
    open spec fn chars_of(&self) -> Text {
        self@
    }

    fn into_text(self) -> (r: String) {
        self.to_owned()
    }
}

impl IntoText for &String {
    open spec fn chars_of(&self) -> Text {
        self@
    }

    fn into_text(self) -> (r: String) {
        self.clone()
    }
}

/// The model of an optional string.
pub open spec fn opt_text(o: Option<String>) -> Option<Text> {
    match o {
        Some(s) => Some(s@),
        None => None,
    }
}

/// The models of a sequence of strings.
pub open spec fn texts(s: Seq<String>) -> Seq<Text> {
    Seq::new(s.len(), |i: int| s[i]@)
}

/// A copy of an optional string.
pub fn copy_opt(o: &Option<String>) -> (r: Option<String>)
    ensures
        opt_text(r) == opt_text(*o),
{
    match o {
        Some(s) => Some(s.clone()),
        None => None,
    }
}

/// The optional string's characters, with the empty text for `None`.
pub open spec fn or_empty(o: Option<Text>) -> Text {
    match o {
        Some(t) => t,
        None => Seq::empty(),
    }
}

/// The optional string, or an empty one.
pub fn copy_or_empty(o: &Option<String>) -> (r: String)
    ensures
        r@ == or_empty(opt_text(*o)),
{
    match o {
        Some(s) => s.clone(),
        None => String::new(),
    }
}

/// The characters of a string.
pub fn to_chars(s: &str) -> (r: Vec<char>)
    ensures
        r@ == s@,
{
    let mut out: Vec<char> = Vec::new();
    for c in it: s.chars()
        invariant
            out@ == it.seq().take(it.index()),
            it.seq() == s@,
    {
        out.push(c);
        assert(out@ =~= it.seq().take(it.index() + 1));
    }
    assert(s@.take(s@.len() as int) =~= s@);
    out
}

/// The string with the given characters.
pub fn from_chars(v: &[char]) -> (r: String)
    ensures
        r@ == v@,
{
    let mut out = String::new();
    let mut i: usize = 0;
    while i < v.len()
        invariant
            i <= v.len(),
            out@ == v@.take(i as int),
        decreases v.len() - i,
    {
        out.push(v[i]);
        i += 1;
        assert(out@ =~= v@.take(i as int));
    }
    assert(v@.take(v@.len() as int) =~= v@);
    out
}

/// Whether two strings have the same characters.
pub fn same(a: &str, b: &str) -> (r: bool)
    ensures
        r == (a@ == b@),
{
    let x = a.to_owned();
    let y = b.to_owned();
    x == y
}

/// Whether two character sequences are equal.
pub fn same_chars(a: &[char], b: &[char]) -> (r: bool)
    ensures
        r == (a@ == b@),
{
    if a.len() != b.len() {
        return false;
    }
    let mut i: usize = 0;
    while i < a.len()
        invariant
            i <= a.len(),
            a.len() == b.len(),
            forall|j: int| 0 <= j < i ==> a@[j] == b@[j],
        decreases a.len() - i,
    {
        if a[i] != b[i] {
            return false;
        }
        i += 1;
    }
    assert(a@ =~= b@);
    true
}

/// Whether a character sequence spells the given string.
pub fn spells(a: &[char], b: &str) -> (r: bool)
    ensures
        r == (a@ == b@),
{
    let chars = to_chars(b);
    same_chars(a, chars.as_slice())
}

/// Two strings, one after the other.
pub fn concat2(a: &str, b: &str) -> (r: String)
    ensures
        r@ == a@ + b@,
{
    let mut out = a.to_owned();
    out.append(b);
    out
}

/// Three strings, one after the other.
pub fn concat3(a: &str, b: &str, c: &str) -> (r: String)
    ensures
        r@ == a@ + b@ + c@,
{
    let mut out = a.to_owned();
    out.append(b);
    out.append(c);
    out
}

/// Four strings, one after the other.
pub fn concat4(a: &str, b: &str, c: &str, d: &str) -> (r: String)
    ensures
        r@ == a@ + b@ + c@ + d@,
{
    let mut out = a.to_owned();
    out.append(b);
    out.append(c);
    out.append(d);
    out
}

/// Five strings, one after the other.
pub fn concat5(a: &str, b: &str, c: &str, d: &str, e: &str) -> (r: String)
    ensures
        r@ == a@ + b@ + c@ + d@ + e@,
{
    let mut out = a.to_owned();
    out.append(b);
    out.append(c);
    out.append(d);
    out.append(e);
    out
}

/// Six strings, one after the other.
pub fn concat6(a: &str, b: &str, c: &str, d: &str, e: &str, f: &str) -> (r: String)
    ensures
        r@ == a@ + b@ + c@ + d@ + e@ + f@,
{
    let mut out = a.to_owned();
    out.append(b);
    out.append(c);
    out.append(d);
    out.append(e);
    out.append(f);
    out
}

// ---------------------------------------------------------------------
// Character classes
// ---------------------------------------------------------------------

/// The Unicode `White_Space` property.
pub open spec fn white_space(c: char) -> bool {
    let n = c as u32;
    ||| 9 <= n <= 13
    ||| n == 32
    ||| n == 0x85
    ||| n == 0xa0
    ||| n == 0x1680
    ||| 0x2000 <= n <= 0x200a
    ||| n == 0x2028
    ||| n == 0x2029
    ||| n == 0x202f
    ||| n == 0x205f
    ||| n == 0x3000
}

/// Whether `c` has the Unicode `White_Space` property.
pub fn is_white_space(c: char) -> (r: bool)
    ensures
        r == white_space(c),
{
    let n: u32 = c as u32;
    (9 <= n && n <= 13) || n == 32 || n == 0x85 || n == 0xa0 || n == 0x1680 || (0x2000 <= n && n
        <= 0x200a) || n == 0x2028 || n == 0x2029 || n == 0x202f || n == 0x205f || n == 0x3000
}

/// Space, tab, line feed, form feed and carriage return.
pub open spec fn ascii_space(c: char) -> bool {
    c == ' ' || c == '\t' || c == '\n' || c as u32 == 12 || c == '\r'
}

/// Whether `c` is ASCII whitespace.
pub fn is_ascii_space(c: char) -> (r: bool)
    ensures
        r == ascii_space(c),
{
    c == ' ' || c == '\t' || c == '\n' || c as u32 == 12 || c == '\r'
}

/// `0` to `9`.
pub open spec fn digit(c: char) -> bool {
    '0' <= c <= '9'
}

/// Whether `c` is an ASCII digit.
pub fn is_digit(c: char) -> (r: bool)
    ensures
        r == digit(c),
{
    '0' <= c && c <= '9'
}

/// `a` to `z` and `A` to `Z`.
pub open spec fn ascii_letter(c: char) -> bool {
    'a' <= c <= 'z' || 'A' <= c <= 'Z'
}

/// Whether `c` is an ASCII letter.
pub fn is_ascii_letter(c: char) -> (r: bool)
    ensures
        r == ascii_letter(c),
{
    ('a' <= c && c <= 'z') || ('A' <= c && c <= 'Z')
}

/// ASCII letters and digits.
pub open spec fn ascii_alphanumeric(c: char) -> bool {
    ascii_letter(c) || digit(c)
}

/// Whether `c` is an ASCII letter or digit.
pub fn is_ascii_alphanumeric(c: char) -> (r: bool)
    ensures
        r == ascii_alphanumeric(c),
{
    is_ascii_letter(c) || is_digit(c)
}

/// ASCII hexadecimal digits, in either case.
pub open spec fn hex_digit(c: char) -> bool {
    digit(c) || 'a' <= c <= 'f' || 'A' <= c <= 'F'
}

/// Whether `c` is an ASCII hexadecimal digit.
pub fn is_hex_digit(c: char) -> (r: bool)
    ensures
        r == hex_digit(c),
{
    is_digit(c) || ('a' <= c && c <= 'f') || ('A' <= c && c <= 'F')
}

/// Whether every character is an ASCII digit.
pub open spec fn all_digits(t: Text) -> bool {
    forall|i: int| 0 <= i < t.len() ==> digit(#[trigger] t[i])
}

/// Whether every character is an ASCII digit (so also where there is none).
pub fn is_ascii_digits(value: &[char]) -> (r: bool)
    ensures
        r == all_digits(value@),
{
    let mut i: usize = 0;
    while i < value.len()
        invariant
            i <= value.len(),
            forall|j: int| 0 <= j < i ==> digit(#[trigger] value@[j]),
        decreases value.len() - i,
    {
        if !is_digit(value[i]) {
            return false;
        }
        i += 1;
    }
    true
}

// ---------------------------------------------------------------------
// Whitespace
// ---------------------------------------------------------------------

/// Whether the text holds nothing but whitespace.
pub open spec fn blank(t: Text) -> bool {
    forall|i: int| 0 <= i < t.len() ==> white_space(#[trigger] t[i])
}

/// Whether the text holds nothing but whitespace.
pub fn is_blank(s: &str) -> (r: bool)
    ensures
        r == blank(s@),
{
    let v = to_chars(s);
    let mut i: usize = 0;
    while i < v.len()
        invariant
            i <= v.len(),
            v@ == s@,
            forall|j: int| 0 <= j < i ==> white_space(#[trigger] s@[j]),
        decreases v.len() - i,
    {
        if !is_white_space(v[i]) {
            assert(!white_space(s@[i as int]));
            return false;
        }
        i += 1;
    }
    true
}

/// The text without its leading whitespace.
pub open spec fn trim_start(t: Text) -> Text
    decreases t.len(),
{
    if t.len() > 0 && white_space(t[0]) {
        trim_start(t.drop_first())
    } else {
        t
    }
}

/// The text without its trailing whitespace.
pub open spec fn trim_end(t: Text) -> Text
    decreases t.len(),
{
    if t.len() > 0 && white_space(t.last()) {
        trim_end(t.drop_last())
    } else {
        t
    }
}

/// The text without leading and trailing whitespace.
pub open spec fn trim(t: Text) -> Text {
    trim_end(trim_start(t))
}

/// The characters without leading and trailing whitespace.
pub fn trimmed<'a>(v: &'a [char]) -> (r: &'a [char])
    ensures
        r@ == trim(v@),
{
    let mut i: usize = 0;
    assert(v@.subrange(0, v@.len() as int) =~= v@);
    while i < v.len() && is_white_space(v[i])
        invariant
            i <= v.len(),
            trim_start(v@) == trim_start(v@.subrange(i as int, v@.len() as int)),
        decreases v.len() - i,
    {
        assert(v@.subrange(i as int, v@.len() as int).drop_first() =~= v@.subrange(
            i + 1,
            v@.len() as int,
        ));
        i += 1;
    }
    let ghost s = v@.subrange(i as int, v@.len() as int);
    assert(trim_start(v@) == s);
    let mut j: usize = v.len();
    while j > i && is_white_space(v[j - 1])
        invariant
            i <= j <= v.len(),
            trim_end(s) == trim_end(v@.subrange(i as int, j as int)),
        decreases j,
    {
        assert(v@.subrange(i as int, j as int).drop_last() =~= v@.subrange(i as int, j - 1));
        assert(v@.subrange(i as int, j as int).last() == v@[j - 1]);
        j -= 1;
    }
    assert(j > i ==> v@.subrange(i as int, j as int).last() == v@[j - 1]);
    slice_subrange(v, i, j)
}

/// The string without leading and trailing whitespace.
pub fn trimmed_string(s: &str) -> (r: String)
    ensures
        r@ == trim(s@),
{
    let v = to_chars(s);
    from_chars(trimmed(v.as_slice()))
}

/// The number of leading characters that are not ASCII whitespace.
pub open spec fn word_len(t: Text) -> nat
    decreases t.len(),
{
    if t.len() > 0 && !ascii_space(t[0]) {
        1 + word_len(t.drop_first())
    } else {
        0
    }
}

/// The maximal runs of characters that are not ASCII whitespace, in order.
pub open spec fn tokens(t: Text) -> Seq<Text>
    decreases t.len(),
{
    if t.len() == 0 {
        Seq::empty()
    } else if ascii_space(t[0]) {
        tokens(t.drop_first())
    } else {
        let n = word_len(t);
        if 0 < n <= t.len() {
            seq![t.take(n as int)] + tokens(t.skip(n as int))
        } else {
            Seq::empty()
        }
    }
}

/// A word's length is determined by where its first space stands.
pub proof fn lemma_word_len(t: Text, n: nat)
    requires
        n <= t.len(),
        forall|j: int| 0 <= j < n ==> !ascii_space(#[trigger] t[j]),
        n < t.len() ==> ascii_space(t[n as int]),
    ensures
        word_len(t) == n,
    decreases n,
{
    if n > 0 {
        let rest = t.drop_first();
        assert forall|j: int| 0 <= j < n - 1 implies !ascii_space(#[trigger] rest[j]) by {
            assert(rest[j] == t[j + 1]);
        }
        assert(!ascii_space(t[0]));
        lemma_word_len(rest, (n - 1) as nat);
    }
}

/// The models of a sequence of character vectors.
pub open spec fn char_vecs(s: Seq<Vec<char>>) -> Seq<Text> {
    Seq::new(s.len(), |i: int| s[i]@)
}

/// The maximal runs of characters that are not ASCII whitespace.
pub fn split_tokens(v: &[char]) -> (r: Vec<Vec<char>>)
    ensures
        char_vecs(r@) == tokens(v@),
{
    let mut out: Vec<Vec<char>> = Vec::new();
    let mut i: usize = 0;
    assert(v@.skip(0) =~= v@);
    assert(char_vecs(out@) + tokens(v@) =~= tokens(v@));
    while i < v.len()
        invariant
            i <= v.len(),
            char_vecs(out@) + tokens(v@.skip(i as int)) == tokens(v@),
        decreases v.len() - i,
    {
        let ghost rest = v@.skip(i as int);
        if is_ascii_space(v[i]) {
            assert(rest.drop_first() =~= v@.skip(i + 1));
            i += 1;
        } else {
            let mut k: usize = i;
            while k < v.len() && !is_ascii_space(v[k])
                invariant
                    i <= k <= v.len(),
                    forall|j: int| i <= j < k ==> !ascii_space(#[trigger] v@[j]),
                decreases v.len() - k,
            {
                k += 1;
            }
            let word = slice_subrange(v, i, k);
            let copy = copy_chars(word);
            proof {
                assert forall|j: int| 0 <= j < k - i implies !ascii_space(#[trigger] rest[j]) by {
                    assert(rest[j] == v@[i + j]);
                }
                assert(!ascii_space(v@[i as int]));
                lemma_word_len(rest, (k - i) as nat);
                assert(rest.take(k - i) =~= copy@);
                assert(rest.skip(k - i) =~= v@.skip(k as int));
            }
            let ghost before = char_vecs(out@);
            out.push(copy);
            proof {
                assert(char_vecs(out@) =~= before.push(copy@));
                assert(before.push(copy@) + tokens(v@.skip(k as int)) =~= before + (seq![copy@]
                    + tokens(v@.skip(k as int))));
            }
            i = k;
        }
    }
    assert(v@.skip(i as int) =~= Seq::<char>::empty());
    assert(char_vecs(out@) =~= tokens(v@));
    out
}

/// A copy of the characters.
pub fn copy_chars(v: &[char]) -> (r: Vec<char>)
    ensures
        r@ == v@,
{
    let mut out: Vec<char> = Vec::new();
    push_all(&mut out, v);
    assert(out@ =~= v@);
    out
}

/// Appends all of `v`.
pub fn push_all(out: &mut Vec<char>, v: &[char])
    ensures
        final(out)@ == old(out)@ + v@,
{
    let ghost before = out@;
    let mut i: usize = 0;
    assert(out@ =~= before + v@.take(0));
    while i < v.len()
        invariant
            i <= v.len(),
            out@ == before + v@.take(i as int),
        decreases v.len() - i,
    {
        out.push(v[i]);
        i += 1;
        assert(out@ =~= before + v@.take(i as int));
    }
    assert(v@.take(v@.len() as int) =~= v@);
}

/// The texts, with a single space between each two.
pub open spec fn join_with_space(parts: Seq<Text>) -> Text
    decreases parts.len(),
{
    if parts.len() == 0 {
        Seq::empty()
    } else if parts.len() == 1 {
        parts[0]
    } else {
        join_with_space(parts.drop_last()).push(' ') + parts.last()
    }
}

/// Whitespace collapse: each run of ASCII whitespace becomes one space, and none
/// is left at either end.
pub open spec fn collapse(t: Text) -> Text {
    join_with_space(tokens(t))
}

/// Whitespace collapse: each run of ASCII whitespace becomes one space, and none
/// is left at either end.
pub fn collapse_whitespace(v: &[char]) -> (r: Vec<char>)
    ensures
        r@ == collapse(v@),
{
    let parts = split_tokens(v);
    let ghost all = char_vecs(parts@);
    let mut out: Vec<char> = Vec::new();
    let mut i: usize = 0;
    while i < parts.len()
        invariant
            i <= parts.len(),
            all == char_vecs(parts@),
            out@ == join_with_space(all.take(i as int)),
        decreases parts.len() - i,
    {
        let ghost prefix = all.take(i + 1);
        assert(prefix.drop_last() =~= all.take(i as int));
        assert(prefix.last() == parts@[i as int]@);
        if i > 0 {
            out.push(' ');
        }
        push_all(&mut out, parts[i].as_slice());
        i += 1;
        proof {
            if i == 1 {
                assert(out@ =~= prefix[0]);
            }
        }
    }
    assert(all.take(all.len() as int) =~= all);
    out
}

// ---------------------------------------------------------------------
// Searching
// ---------------------------------------------------------------------

/// The index of the first `c`, or the length where there is none.
pub open spec fn position(t: Text, c: char) -> nat
    decreases t.len(),
{
    if t.len() == 0 || t[0] == c {
        0
    } else {
        1 + position(t.drop_first(), c)
    }
}

/// Whether `c` occurs.
pub open spec fn occurs(t: Text, c: char) -> bool {
    position(t, c) < t.len()
}

/// `position` is the index of the first occurrence.
pub proof fn lemma_position(t: Text, c: char, k: nat)
    requires
        k <= t.len(),
        forall|j: int| 0 <= j < k ==> #[trigger] t[j] != c,
        k < t.len() ==> t[k as int] == c,
    ensures
        position(t, c) == k,
    decreases k,
{
    if k > 0 {
        let rest = t.drop_first();
        assert forall|j: int| 0 <= j < k - 1 implies #[trigger] rest[j] != c by {
            assert(rest[j] == t[j + 1]);
        }
        assert(t[0] != c);
        lemma_position(rest, c, (k - 1) as nat);
    }
}

/// The index of the first `c`, or the length where there is none.
pub fn find(v: &[char], c: char) -> (r: usize)
    ensures
        r == position(v@, c),
        r <= v@.len(),
        r < v@.len() ==> v@[r as int] == c,
{
    let mut i: usize = 0;
    while i < v.len() && v[i] != c
        invariant
            i <= v.len(),
            forall|j: int| 0 <= j < i ==> #[trigger] v@[j] != c,
        decreases v.len() - i,
    {
        i += 1;
    }
    proof {
        lemma_position(v@, c, i as nat);
    }
    i
}

/// What stands before and after the first `c`.
pub open spec fn split_once(t: Text, c: char) -> Option<(Text, Text)> {
    let k = position(t, c) as int;
    if k < t.len() {
        Some((t.take(k), t.skip(k + 1)))
    } else {
        None
    }
}

/// What stands before and after the first `c`.
pub fn split_at_first<'a>(v: &'a [char], c: char) -> (r: Option<(&'a [char], &'a [char])>)
    ensures
        match r {
            Some((a, b)) => split_once(v@, c) == Some((a@, b@)),
            None => split_once(v@, c) is None,
        },
{
    let k = find(v, c);
    if k < v.len() {
        let a = slice_subrange(v, 0, k);
        let b = slice_subrange(v, k + 1, v.len());
        assert(a@ =~= v@.take(k as int));
        assert(b@ =~= v@.skip(k + 1));
        Some((a, b))
    } else {
        None
    }
}

/// The text after the prefix `p`, where it starts with it.
pub open spec fn strip_prefix(t: Text, p: Text) -> Option<Text> {
    if p.len() <= t.len() && t.take(p.len() as int) == p {
        Some(t.skip(p.len() as int))
    } else {
        None
    }
}

/// The characters after the leading `c`, where `v` starts with it.
pub fn strip_char<'a>(v: &'a [char], c: char) -> (r: Option<&'a [char]>)
    ensures
        match r {
            Some(rest) => v@.len() > 0 && v@[0] == c && rest@ == v@.drop_first(),
            None => !(v@.len() > 0 && v@[0] == c),
        },
{
    if v.len() > 0 && v[0] == c {
        let rest = slice_subrange(v, 1, v.len());
        assert(rest@ =~= v@.drop_first());
        Some(rest)
    } else {
        None
    }
}

/// Whether one text precedes another in lexicographic order of code points.
pub open spec fn text_lt(a: Text, b: Text) -> bool
    decreases a.len(),
{
    if b.len() == 0 {
        false
    } else if a.len() == 0 {
        true
    } else if a[0] != b[0] {
        a[0] < b[0]
    } else {
        text_lt(a.drop_first(), b.drop_first())
    }
}

/// Lexicographic order is irreflexive.
pub proof fn lemma_text_lt_irreflexive(a: Text)
    ensures
        !text_lt(a, a),
    decreases a.len(),
{
    if a.len() > 0 {
        lemma_text_lt_irreflexive(a.drop_first());
    }
}

/// Lexicographic order is transitive.
pub proof fn lemma_text_lt_transitive(a: Text, b: Text, c: Text)
    requires
        text_lt(a, b),
        text_lt(b, c),
    ensures
        text_lt(a, c),
    decreases a.len(),
{
    if a.len() > 0 && a[0] == b[0] && b[0] == c[0] {
        lemma_text_lt_transitive(a.drop_first(), b.drop_first(), c.drop_first());
    }
}

/// Two texts of which neither precedes the other are equal.
pub proof fn lemma_text_lt_total(a: Text, b: Text)
    requires
        !text_lt(a, b),
        !text_lt(b, a),
    ensures
        a == b,
    decreases a.len(),
{
    if a.len() == 0 {
        assert(b.len() == 0);
        assert(a =~= b);
    } else if b.len() == 0 {
        assert(false);
    } else {
        if a[0] != b[0] {
            assert(a[0] < b[0] || b[0] < a[0]);
        }
        lemma_text_lt_total(a.drop_first(), b.drop_first());
        assert(a =~= seq![a[0]] + a.drop_first());
        assert(b =~= seq![b[0]] + b.drop_first());
    }
}

/// Whether one string precedes another in lexicographic order of code points.
pub fn precedes(a: &str, b: &str) -> (r: bool)
    ensures
        r == text_lt(a@, b@),
{
    let x = to_chars(a);
    let y = to_chars(b);
    let mut i: usize = 0;
    assert(a@.skip(0) =~= a@);
    assert(b@.skip(0) =~= b@);
    while i < x.len() && i < y.len()
        invariant
            x@ == a@,
            y@ == b@,
            i <= x.len(),
            i <= y.len(),
            text_lt(a@, b@) == text_lt(a@.skip(i as int), b@.skip(i as int)),
        decreases x.len() - i,
    {
        assert(a@.skip(i as int)[0] == x@[i as int]);
        assert(b@.skip(i as int)[0] == y@[i as int]);
        if x[i] != y[i] {
            return x[i] < y[i];
        }
        assert(a@.skip(i as int).drop_first() =~= a@.skip(i + 1));
        assert(b@.skip(i as int).drop_first() =~= b@.skip(i + 1));
        i += 1;
    }
    i < y.len()
}

/// Whether a list of strings holds the given one.
pub fn holds(list: &Vec<String>, s: &str) -> (r: bool)
    ensures
        r == texts(list@).contains(s@),
{
    let mut i: usize = 0;
    while i < list.len()
        invariant
            i <= list.len(),
            forall|j: int| 0 <= j < i ==> #[trigger] texts(list@)[j] != s@,
        decreases list.len() - i,
    {
        if same(list[i].as_str(), s) {
            assert(texts(list@)[i as int] == s@);
            return true;
        }
        i += 1;
    }
    false
}

/// A copy of a list of strings.
pub fn copy_strings(list: &Vec<String>) -> (r: Vec<String>)
    ensures
        texts(r@) == texts(list@),
{
    let mut out: Vec<String> = Vec::new();
    let mut i: usize = 0;
    while i < list.len()
        invariant
            i <= list.len(),
            out.len() == i,
            forall|j: int| 0 <= j < i ==> (#[trigger] out@[j])@ == list@[j]@,
        decreases list.len() - i,
    {
        out.push(list[i].clone());
        i += 1;
    }
    assert(texts(out@) =~= texts(list@));
    out
}

// ---------------------------------------------------------------------
// Collapsed text
// ---------------------------------------------------------------------

/// Whether texts are words: not empty, and without a space.
pub open spec fn all_words(s: Seq<Text>) -> bool {
    forall|i: int| 0 <= i < s.len() ==> word(#[trigger] s[i])
}

/// Whether a text is a word: not empty, and without a space.
pub open spec fn word(t: Text) -> bool {
    t.len() > 0 && forall|j: int| 0 <= j < t.len() ==> !ascii_space(#[trigger] t[j])
}

/// A text is split into words.
proof fn lemma_tokens_are_words(t: Text)
    ensures
        all_words(tokens(t)),
    decreases t.len(),
{
    if t.len() > 0 {
        if ascii_space(t[0]) {
            lemma_tokens_are_words(t.drop_first());
        } else {
            let n = word_len(t);
            lemma_word_is_word(t);
            if 0 < n <= t.len() {
                lemma_tokens_are_words(t.skip(n as int));
                assert(word(t.take(n as int)));
            }
        }
    }
}

/// What stands before the first space holds none.
proof fn lemma_word_is_word(t: Text)
    ensures
        word_len(t) <= t.len(),
        forall|j: int| 0 <= j < word_len(t) ==> !ascii_space(#[trigger] t[j]),
    decreases t.len(),
{
    if t.len() > 0 && !ascii_space(t[0]) {
        let rest = t.drop_first();
        lemma_word_is_word(rest);
        assert forall|j: int| 0 <= j < word_len(t) implies !ascii_space(#[trigger] t[j]) by {
            if j > 0 {
                assert(t[j] == rest[j - 1]);
            }
        }
    }
}

/// Words joined, by the first.
proof fn lemma_join_first(s: Seq<Text>)
    requires
        s.len() >= 2,
    ensures
        join_with_space(s) == s[0] + (seq![' '] + join_with_space(s.drop_first())),
    decreases s.len(),
{
    let rest = s.drop_first();
    let front = s.drop_last();
    if s.len() == 2 {
        assert(front.drop_last() =~= Seq::<Text>::empty());
        assert(rest.drop_last() =~= Seq::<Text>::empty());
        assert(join_with_space(front) =~= s[0]);
        assert(join_with_space(rest) =~= s[1]);
        assert(join_with_space(s) =~= s[0] + (seq![' '] + join_with_space(rest)));
    } else {
        lemma_join_first(front);
        assert(front.drop_first() =~= rest.drop_last());
        assert(join_with_space(s) =~= s[0] + (seq![' '] + join_with_space(rest)));
    }
}

/// Words that are joined are split into the same words.
proof fn lemma_split_joined(s: Seq<Text>)
    requires
        all_words(s),
    ensures
        tokens(join_with_space(s)) == s,
    decreases s.len(),
{
    let t = join_with_space(s);
    if s.len() > 0 {
        let first = s[0];
        assert(word(first));
        if s.len() == 1 {
            assert(s.drop_last() =~= Seq::<Text>::empty());
            assert(t =~= first);
            lemma_word_len(t, t.len());
            assert(t.take(t.len() as int) =~= first);
            assert(tokens(t.skip(t.len() as int)) =~= Seq::<Text>::empty());
            assert(tokens(t) =~= s);
        } else {
            let rest = s.drop_first();
            let n = first.len();
            lemma_join_first(s);
            let after = seq![' '] + join_with_space(rest);
            assert forall|j: int| 0 <= j < n implies !ascii_space(#[trigger] t[j]) by {
                assert(t[j] == first[j]);
            }
            assert(t[n as int] == ' ');
            lemma_word_len(t, n);
            assert(t.take(n as int) =~= first);
            assert(t.skip(n as int) =~= after);
            assert(after.drop_first() =~= join_with_space(rest));
            assert forall|i: int| 0 <= i < rest.len() implies word(#[trigger] rest[i]) by {
                assert(rest[i] == s[i + 1]);
            }
            lemma_split_joined(rest);
            assert(after[0] == ' ');
            assert(tokens(after) == rest);
            assert(seq![first] + rest =~= s);
        }
    }
}

/// Whitespace that has been collapsed stays as it is, and the words between stay the same.
pub proof fn law_collapse_is_idempotent(t: Text)
    ensures
        tokens(collapse(t)) == tokens(t),
        collapse(collapse(t)) == collapse(t),
{
    lemma_tokens_are_words(t);
    lemma_split_joined(tokens(t));
}

/// Words are what stands between spaces, tabs and line ends: a space ends one, whatever stands
/// before and behind it, and a text without any is one word.
pub proof fn law_words_stand_between_spaces(a: Text, c: char, b: Text)
    requires
        c == ' ' || c == '\t' || c == '\n' || c == '\r',
    ensures
        tokens(a + seq![c] + b) == tokens(a) + tokens(b),
        a.len() > 0 && (forall|i: int|
            0 <= i < a.len() ==> #[trigger] a[i] != ' ' && a[i] != '\t' && a[i] != '\n' && a[i]
                != '\r' && a[i] as u32 != 12) ==> tokens(a) == seq![a],
        tokens(Seq::<char>::empty()).len() == 0,
{
    lemma_tokens_joined(a, c, b);
    if a.len() > 0 && forall|i: int|
        0 <= i < a.len() ==> #[trigger] a[i] != ' ' && a[i] != '\t' && a[i] != '\n' && a[i]
            != '\r' && a[i] as u32 != 12 {
        assert forall|j: int| 0 <= j < a.len() implies !ascii_space(#[trigger] a[j]) by {}
        lemma_word_len(a, a.len());
        assert(a.take(a.len() as int) =~= a);
        assert(a.skip(a.len() as int).len() == 0);
        assert(tokens(a.skip(a.len() as int)) =~= Seq::<Text>::empty());
        assert(!ascii_space(a[0]));
        assert(tokens(a) =~= seq![a]);
    }
}

/// The words of two texts with a space between them.
proof fn lemma_tokens_joined(a: Text, c: char, b: Text)
    requires
        ascii_space(c),
    ensures
        tokens(a + seq![c] + b) == tokens(a) + tokens(b),
    decreases a.len(),
{
    let t = a + seq![c] + b;
    if a.len() == 0 {
        assert(t[0] == c);
        assert(t.drop_first() =~= b);
        assert(tokens(a) + tokens(b) =~= tokens(b));
    } else if ascii_space(a[0]) {
        let rest = a.drop_first();
        assert(t.drop_first() =~= rest + seq![c] + b);
        lemma_tokens_joined(rest, c, b);
    } else {
        let n = word_len(a);
        lemma_word_ends(a);
        assert forall|j: int| 0 <= j < n implies !ascii_space(#[trigger] t[j]) by {
            assert(t[j] == a[j]);
        }
        if n < a.len() {
            assert(t[n as int] == a[n as int]);
        } else {
            assert(t[n as int] == c);
        }
        lemma_word_len(t, n);
        assert(t.take(n as int) =~= a.take(n as int));
        let rest = a.skip(n as int);
        assert(t.skip(n as int) =~= rest + seq![c] + b);
        lemma_tokens_joined(rest, c, b);
        assert(seq![a.take(n as int)] + (tokens(rest) + tokens(b)) =~= (seq![a.take(n as int)]
            + tokens(rest)) + tokens(b));
    }
}

/// A word goes on up to a space or the end.
proof fn lemma_word_ends(t: Text)
    ensures
        word_len(t) <= t.len(),
        t.len() > 0 && !ascii_space(t[0]) ==> word_len(t) > 0,
        forall|j: int| 0 <= j < word_len(t) ==> !ascii_space(#[trigger] t[j]),
        word_len(t) < t.len() ==> ascii_space(t[word_len(t) as int]),
    decreases t.len(),
{
    if t.len() > 0 && !ascii_space(t[0]) {
        let rest = t.drop_first();
        lemma_word_ends(rest);
        assert forall|j: int| 0 <= j < word_len(t) implies !ascii_space(#[trigger] t[j]) by {
            if j > 0 {
                assert(rest[j - 1] == t[j]);
            }
        }
        if word_len(t) < t.len() {
            assert(rest[word_len(rest) as int] == t[word_len(t) as int]);
        }
    }
}

/// A text without the white space around it is what stands between white space, and starts and
/// ends with none.
pub proof fn law_trimming_leaves_the_middle(a: Text, t: Text, b: Text)
    requires
        blank(a),
        blank(b),
        t.len() > 0,
        !white_space(t[0]),
        !white_space(t.last()),
    ensures
        trim(a + t + b) == t,
        trim(a).len() == 0,
{
    lemma_trim_front(a, t + b);
    assert(a + t + b =~= a + (t + b));
    lemma_trim_back(t, b);
    lemma_trim_blank(a);
}

/// White space in front is left out.
proof fn lemma_trim_front(a: Text, t: Text)
    requires
        blank(a),
        t.len() > 0,
        !white_space(t[0]),
    ensures
        trim_start(a + t) == t,
    decreases a.len(),
{
    let w = a + t;
    if a.len() == 0 {
        assert(w =~= t);
    } else {
        let rest = a.drop_first();
        assert(white_space(a[0]));
        assert(w[0] == a[0]);
        assert(w.drop_first() =~= rest + t);
        assert forall|i: int| 0 <= i < rest.len() implies white_space(#[trigger] rest[i]) by {
            assert(rest[i] == a[i + 1]);
        }
        lemma_trim_front(rest, t);
    }
}

/// White space behind is left out.
proof fn lemma_trim_back(t: Text, b: Text)
    requires
        blank(b),
        t.len() > 0,
        !white_space(t.last()),
    ensures
        trim_end(t + b) == t,
    decreases b.len(),
{
    let w = t + b;
    if b.len() == 0 {
        assert(w =~= t);
    } else {
        let rest = b.drop_last();
        assert(white_space(b[b.len() - 1]));
        assert(w.last() == b.last());
        assert(w.drop_last() =~= t + rest);
        assert forall|i: int| 0 <= i < rest.len() implies white_space(#[trigger] rest[i]) by {
            assert(rest[i] == b[i]);
        }
        lemma_trim_back(t, rest);
    }
}

/// Of white space nothing is left.
proof fn lemma_trim_blank(a: Text)
    requires
        blank(a),
    ensures
        trim_start(a).len() == 0,
    decreases a.len(),
{
    if a.len() > 0 {
        let rest = a.drop_first();
        assert(white_space(a[0]));
        assert forall|i: int| 0 <= i < rest.len() implies white_space(#[trigger] rest[i]) by {
            assert(rest[i] == a[i + 1]);
        }
        lemma_trim_blank(rest);
    }
}

} // verus!
