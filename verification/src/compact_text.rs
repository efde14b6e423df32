//! Schemas as text in the compact syntax: the text that tokens are spelled as is split into
//! those tokens again.
use vstd::prelude::*;

use crate::compact::{compact_context, compact_schema};
use crate::compact_writing::{
    law_schemas_are_read_back, root_tokens, root_writable, Spelling,
};
use crate::grammar::RootModel;
use crate::lexer::{
    ends_word, hex_end, lemma_hex_end, lexed, lexed_from, line_end, literal_from, scalar_value,
    unescaped, unescaped_from, word_end, TokenModel,
};
use crate::numbers::{unsigned, value_of};
use crate::string_map::{inserted, lemma_inserted_lookup, lookup};
use crate::text::{white_space, Text};

verus! {

/// Whether a character can stand inside a word.
pub open spec fn in_words(c: char) -> bool {
    !white_space(c) && c != '{' && c != '}' && c != '(' && c != ')' && c != '[' && c != ']' && c
        != ',' && c != '|' && c != '&' && c != '?' && c != '*' && c != '+' && c != '=' && c != '"'
        && c != '#' && c != '\\'
}

/// Whether a character is a punctuation mark.
pub open spec fn is_mark(c: char) -> bool {
    c == '{' || c == '}' || c == '(' || c == ')' || c == '[' || c == ']' || c == ',' || c == '|'
        || c == '&' || c == '?' || c == '*' || c == '+' || c == '=' || c == '-'
}

/// The first `k` characters of a literal, each quotation mark behind a backslash.
pub open spec fn quotation(v: Text, k: nat) -> Text
    decreases k,
{
    if k == 0 || k > v.len() {
        Seq::empty()
    } else if v[k - 1] == '"' {
        quotation(v, (k - 1) as nat) + seq!['\\', '"']
    } else {
        quotation(v, (k - 1) as nat) + seq![v[k - 1]]
    }
}

/// A token as it is spelled.
pub open spec fn spelling(t: TokenModel) -> Text {
    match t {
        TokenModel::Word(w) => w,
        TokenModel::Literal(v) => seq!['"'] + quotation(v, v.len()) + seq!['"'],
        TokenModel::Symbol(c) => seq![c],
        TokenModel::End => Seq::empty(),
    }
}

/// What stands behind a token: a space, and a comment up to the end of its line where there is
/// one.
pub open spec fn gap(remark: Option<Text>) -> Text {
    match remark {
        Some(r) => seq![' ', '#'] + r + seq!['\n'],
        None => seq![' '],
    }
}

/// Whether a token can be spelled.
pub open spec fn spellable(t: TokenModel) -> bool {
    match t {
        TokenModel::Word(w) => w.len() > 0 && w[0] != '-' && forall|i: int|
            0 <= i < w.len() ==> in_words(#[trigger] w[i]),
        TokenModel::Literal(v) => !v.contains('\\'),
        TokenModel::Symbol(c) => is_mark(c),
        TokenModel::End => false,
    }
}

/// Whether a comment can be written.
pub open spec fn remarkable(remark: Option<Text>) -> bool {
    remark matches Some(r) ==> !r.contains('\n') && !r.contains('\\')
}

/// The first `n` tokens as they are spelled, each with its gap behind it.
pub open spec fn spelled(ts: Seq<TokenModel>, remarks: Seq<Option<Text>>, n: nat) -> Text
    decreases n,
{
    if n == 0 || n > ts.len() {
        Seq::empty()
    } else {
        spelled(ts, remarks, (n - 1) as nat) + (spelling(ts[n - 1]) + gap(remarks[n - 1]))
    }
}

/// Whether a text stands in another from an index on.
pub open spec fn stands(t: Text, i: int, part: Text) -> bool {
    0 <= i && i + part.len() <= t.len() && forall|j: int|
        0 <= j < part.len() ==> t[i + j] == #[trigger] part[j]
}

/// What stands in a text in two parts.
proof fn lemma_stands_parts(t: Text, i: int, a: Text, b: Text)
    requires
        stands(t, i, a + b),
    ensures
        stands(t, i, a),
        stands(t, i + a.len(), b),
{
    let whole = a + b;
    assert forall|j: int| 0 <= j < a.len() implies t[i + j] == #[trigger] a[j] by {
        assert(whole[j] == a[j]);
    }
    assert forall|j: int| 0 <= j < b.len() implies t[i + a.len() + j] == #[trigger] b[j] by {
        assert(whole[a.len() + j] == b[j]);
    }
}

/// A word goes on up to what ends it.
proof fn lemma_word_end_at(t: Text, i: int, end: int)
    requires
        0 <= i <= end < t.len(),
        ends_word(t[end]),
        forall|j: int| i <= j < end ==> !ends_word(#[trigger] t[j]),
    ensures
        word_end(t, i) == end,
    decreases end - i,
{
    if i < end {
        lemma_word_end_at(t, i + 1, end);
    }
}

/// A line goes on up to its end.
proof fn lemma_line_end_at(t: Text, i: int, end: int)
    requires
        0 <= i <= end < t.len(),
        t[end] == '\n',
        forall|j: int| i <= j < end ==> #[trigger] t[j] != '\n',
    ensures
        line_end(t, i) == end,
    decreases end - i,
{
    if i < end {
        lemma_line_end_at(t, i + 1, end);
    }
}

/// The first characters of a literal take no more room than all.
proof fn lemma_quotation_prefix(t: Text, i: int, v: Text, k: nat, n: nat)
    requires
        k <= n <= v.len(),
        stands(t, i, quotation(v, n)),
    ensures
        stands(t, i, quotation(v, k)),
    decreases n,
{
    if k < n {
        let front = quotation(v, (n - 1) as nat);
        if v[n - 1] == '"' {
            lemma_stands_parts(t, i, front, seq!['\\', '"']);
        } else {
            lemma_stands_parts(t, i, front, seq![v[n - 1]]);
        }
        lemma_quotation_prefix(t, i, v, k, (n - 1) as nat);
    }
}

/// The rest of a literal is read after its first `k` characters.
proof fn lemma_literal_at(t: Text, i: int, v: Text, k: nat)
    requires
        k <= v.len(),
        !v.contains('\\'),
        stands(t, i, quotation(v, v.len()) + seq!['"']),
    ensures
        literal_from(t, i + quotation(v, k).len(), v.take(k as int)) == Ok::<(Text, int), Text>(
            (v, i + quotation(v, v.len()).len() + 1),
        ),
    decreases v.len() - k,
{
    let all = quotation(v, v.len());
    let here = i + quotation(v, k).len();
    lemma_stands_parts(t, i, all, seq!['"']);
    if k == v.len() {
        assert(v.take(k as int) =~= v);
        assert(t[i + all.len() + 0] == seq!['"'][0]);
    } else {
        let front = quotation(v, k);
        let c = v[k as int];
        assert(v.contains(c));
        lemma_quotation_prefix(t, i, v, k + 1, v.len());
        lemma_literal_at(t, i, v, k + 1);
        assert(v.take(k as int).push(c) =~= v.take(k as int + 1));
        if c == '"' {
            assert(quotation(v, k + 1) == front + seq!['\\', '"']);
            lemma_stands_parts(t, i, front, seq!['\\', '"']);
            assert(t[here + 0] == seq!['\\', '"'][0]);
            assert(t[here + 1] == seq!['\\', '"'][1]);
        } else {
            assert(quotation(v, k + 1) == front + seq![c]);
            lemma_stands_parts(t, i, front, seq![c]);
            assert(t[here + 0] == seq![c][0]);
        }
    }
}

/// What stands behind a token is passed over.
proof fn lemma_gap_passed(t: Text, i: int, remark: Option<Text>, out: Seq<TokenModel>)
    requires
        remarkable(remark),
        stands(t, i, gap(remark)),
    ensures
        lexed_from(t, i, out) == lexed_from(t, i + gap(remark).len(), out),
{
    let g = gap(remark);
    assert(t[i + 0] == g[0]);
    assert(white_space(' ') && white_space('\n'));
    match remark {
        Some(r) => {
            let end = i + 2 + r.len();
            assert(t[i + 1] == g[1]);
            assert(g[2 + r.len() as int] == '\n');
            assert(t[i + (2 + r.len())] == '\n');
            assert forall|j: int| i + 2 <= j < end implies #[trigger] t[j] != '\n' by {
                assert(t[i + (j - i)] == g[j - i]);
                assert(g[j - i] == r[j - i - 2]);
                assert(r.contains(r[j - i - 2]));
            }
            lemma_line_end_at(t, i + 2, end);
            assert(!white_space('#'));
            assert(lexed_from(t, i, out) == lexed_from(t, i + 1, out));
            assert(lexed_from(t, i + 1, out) == lexed_from(t, end, out));
            assert(lexed_from(t, end, out) == lexed_from(t, end + 1, out));
        },
        None => {},
    }
}

/// A token that is spelled is the next one.
proof fn lemma_token_lexed(
    t: Text,
    i: int,
    token: TokenModel,
    remark: Option<Text>,
    out: Seq<TokenModel>,
)
    requires
        spellable(token),
        remarkable(remark),
        stands(t, i, spelling(token) + gap(remark)),
    ensures
        lexed_from(t, i, out) == lexed_from(
            t,
            i + (spelling(token) + gap(remark)).len(),
            out.push(token),
        ),
{
    let w = spelling(token);
    let g = gap(remark);
    lemma_stands_parts(t, i, w, g);
    let end = i + w.len();
    assert(t[end + 0] == g[0] && g[0] == ' ');
    lemma_gap_passed(t, end, remark, out.push(token));
    match token {
        TokenModel::Word(_) => {
            assert(t[i + 0] == w[0]);
            assert(in_words(w[0]));
            assert(ends_word(t[end]));
            assert forall|j: int| i + 1 <= j < end implies !ends_word(#[trigger] t[j]) by {
                assert(t[i + (j - i)] == w[j - i]);
                assert(in_words(w[j - i]));
            }
            lemma_word_end_at(t, i + 1, end);
            assert(t.subrange(i, end) =~= w);
        },
        TokenModel::Literal(v) => {
            let q = quotation(v, v.len());
            assert(w =~= seq!['"'] + (q + seq!['"']));
            lemma_stands_parts(t, i, seq!['"'], q + seq!['"']);
            assert(t[i + 0] == seq!['"'][0]);
            lemma_literal_at(t, i + 1, v, 0);
            assert(v.take(0) =~= Seq::<char>::empty());
            assert(!white_space('"'));
        },
        TokenModel::Symbol(c) => {
            assert(t[i + 0] == w[0]);
        },
        TokenModel::End => {},
    }
}

/// The first tokens take no more room than all.
proof fn lemma_spelled_prefix(
    t: Text,
    ts: Seq<TokenModel>,
    remarks: Seq<Option<Text>>,
    k: nat,
    n: nat,
)
    requires
        k <= n <= ts.len(),
        stands(t, 0, spelled(ts, remarks, n)),
    ensures
        stands(t, 0, spelled(ts, remarks, k)),
    decreases n,
{
    if k < n {
        let front = spelled(ts, remarks, (n - 1) as nat);
        lemma_stands_parts(t, 0, front, spelling(ts[n - 1]) + gap(remarks[n - 1]));
        lemma_spelled_prefix(t, ts, remarks, k, (n - 1) as nat);
    }
}

/// The tokens behind the first `k` are split off after them.
proof fn lemma_tokens_lexed(ts: Seq<TokenModel>, remarks: Seq<Option<Text>>, k: nat)
    requires
        k <= ts.len(),
        remarks.len() == ts.len(),
        forall|i: int| 0 <= i < ts.len() ==> spellable(#[trigger] ts[i]),
        forall|i: int| 0 <= i < ts.len() ==> remarkable(#[trigger] remarks[i]),
    ensures
        lexed_from(
            spelled(ts, remarks, ts.len()),
            spelled(ts, remarks, k).len() as int,
            ts.take(k as int),
        ) == Ok::<Seq<TokenModel>, Text>(ts.push(TokenModel::End)),
    decreases ts.len() - k,
{
    let t = spelled(ts, remarks, ts.len());
    if k == ts.len() {
        assert(ts.take(k as int) =~= ts);
    } else {
        let front = spelled(ts, remarks, k);
        let token = ts[k as int];
        let remark = remarks[k as int];
        assert(stands(t, 0, t));
        lemma_spelled_prefix(t, ts, remarks, k + 1, ts.len());
        assert(spelled(ts, remarks, k + 1) == front + (spelling(token) + gap(remark)));
        lemma_stands_parts(t, 0, front, spelling(token) + gap(remark));
        lemma_token_lexed(t, front.len() as int, token, remark, ts.take(k as int));
        assert(ts.take(k as int).push(token) =~= ts.take(k as int + 1));
        lemma_tokens_lexed(ts, remarks, k + 1);
    }
}

/// The text that tokens are spelled as, with white space and comments between them, is split
/// into those tokens, with the end last.
pub proof fn law_tokens_are_split_again(ts: Seq<TokenModel>, remarks: Seq<Option<Text>>)
    requires
        remarks.len() == ts.len(),
        forall|i: int| 0 <= i < ts.len() ==> spellable(#[trigger] ts[i]),
        forall|i: int| 0 <= i < ts.len() ==> remarkable(#[trigger] remarks[i]),
    ensures
        lexed(spelled(ts, remarks, ts.len())) == Ok::<Seq<TokenModel>, Text>(
            ts.push(TokenModel::End),
        ),
{
    lemma_tokens_lexed(ts, remarks, 0);
    assert(ts.take(0) =~= Seq::<TokenModel>::empty());
}

/// Whether no backslash has an `x` behind it.
pub open spec fn plain(t: Text) -> bool {
    forall|i: int| 0 <= i && i + 1 < t.len() && #[trigger] t[i] == '\\' ==> t[i + 1] != 'x'
}

/// Text without escapes is kept.
proof fn lemma_plain_from(t: Text, i: int, out: Text)
    requires
        plain(t),
        0 <= i <= t.len(),
    ensures
        unescaped_from(t, i, out) == Ok::<Text, Text>(out + t.skip(i)),
    decreases t.len() - i,
{
    if i == t.len() {
        assert(out + t.skip(i) =~= out);
    } else {
        lemma_plain_from(t, i + 1, out.push(t[i]));
        assert(out.push(t[i]) + t.skip(i + 1) =~= out + t.skip(i));
    }
}

/// Text in which no backslash has an `x` behind it stands for itself.
pub proof fn law_plain_text_is_kept(t: Text)
    requires
        plain(t),
    ensures
        unescaped(t) == Ok::<Text, Text>(t),
{
    lemma_plain_from(t, 0, Seq::empty());
    assert(Seq::<char>::empty() + t.skip(0) =~= t);
}

/// The characters of a literal as it is spelled hold no escape.
proof fn lemma_quotation_plain(v: Text, k: nat)
    requires
        k <= v.len(),
        !v.contains('\\'),
    ensures
        plain(quotation(v, k)),
        quotation(v, k).len() > 0 ==> quotation(v, k).last() != '\\',
    decreases k,
{
    if k > 0 {
        lemma_quotation_plain(v, (k - 1) as nat);
        let c = v[k - 1];
        assert(v.contains(c));
        let front = quotation(v, (k - 1) as nat);
        if c == '"' {
            lemma_plain_parts(front, seq!['\\', '"']);
        } else {
            lemma_plain_parts(front, seq![c]);
        }
    }
}

/// Text without escapes goes on with text without escapes.
proof fn lemma_plain_parts(a: Text, b: Text)
    requires
        plain(a),
        plain(b),
        a.len() > 0 ==> a.last() != '\\',
    ensures
        plain(a + b),
{
    let t = a + b;
    assert forall|i: int| 0 <= i && i + 1 < t.len() && #[trigger] t[i] == '\\' implies t[i + 1]
        != 'x' by {
        if i + 1 < a.len() {
            assert(a[i] == '\\');
            assert(t[i + 1] == a[i + 1]);
        } else if i >= a.len() {
            assert(b[i - a.len()] == '\\');
            assert(t[i + 1] == b[i + 1 - a.len()]);
        } else {
            assert(a.last() == '\\');
        }
    }
}

/// A text without a backslash holds no escape.
proof fn lemma_no_backslash(t: Text)
    requires
        !t.contains('\\'),
    ensures
        plain(t),
        t.len() > 0 ==> t.last() != '\\',
{
    assert forall|i: int| 0 <= i && i + 1 < t.len() && #[trigger] t[i] == '\\' implies t[i + 1]
        != 'x' by {
        assert(t.contains(t[i]));
    }
    if t.len() > 0 {
        assert(t.contains(t.last()));
    }
}

/// Spelled tokens hold no escape.
proof fn lemma_spelled_plain(ts: Seq<TokenModel>, remarks: Seq<Option<Text>>, n: nat)
    requires
        n <= ts.len(),
        remarks.len() == ts.len(),
        forall|i: int| 0 <= i < ts.len() ==> spellable(#[trigger] ts[i]),
        forall|i: int| 0 <= i < ts.len() ==> remarkable(#[trigger] remarks[i]),
    ensures
        plain(spelled(ts, remarks, n)),
        n > 0 ==> spelled(ts, remarks, n).len() > 0 && spelled(ts, remarks, n).last() != '\\',
    decreases n,
{
    if n > 0 {
        lemma_spelled_plain(ts, remarks, (n - 1) as nat);
        let token = ts[n - 1];
        let remark = remarks[n - 1];
        let w = spelling(token);
        let g = gap(remark);
        match token {
            TokenModel::Word(_) => {
                assert(!w.contains('\\')) by {
                    if w.contains('\\') {
                        let i = choose|i: int| 0 <= i < w.len() && w[i] == '\\';
                        assert(in_words(w[i]));
                    }
                }
                lemma_no_backslash(w);
            },
            TokenModel::Literal(v) => {
                lemma_quotation_plain(v, v.len());
                lemma_plain_parts(seq!['"'], quotation(v, v.len()));
                let front = seq!['"'] + quotation(v, v.len());
                assert(front.last() != '\\') by {
                    if quotation(v, v.len()).len() > 0 {
                        assert(front.last() == quotation(v, v.len()).last());
                    }
                }
                lemma_plain_parts(front, seq!['"']);
            },
            TokenModel::Symbol(c) => {},
            TokenModel::End => {},
        }
        match remark {
            Some(r) => {
                lemma_no_backslash(r);
                lemma_plain_parts(seq![' ', '#'], r);
                let front = seq![' ', '#'] + r;
                assert(front.last() != '\\') by {
                    if r.len() > 0 {
                        assert(front.last() == r.last());
                    }
                }
                lemma_plain_parts(front, seq!['\n']);
            },
            None => {},
        }
        lemma_plain_parts(w, g);
        let front = spelled(ts, remarks, (n - 1) as nat);
        lemma_plain_parts(front, w + g);
        assert((front + (w + g)).last() == g.last());
    }
}

/// Reading the text that a schema is written as, token by token with white space and comments
/// between them, gives that schema back.
pub proof fn law_schema_texts_are_read_back(
    root: RootModel,
    base_uri: Text,
    inherited: Option<Text>,
    sp: Spelling,
    remarks: Seq<Option<Text>>,
)
    requires
        root_writable(root, compact_context(base_uri, inherited), sp),
        remarks.len() == root_tokens(root, sp).len(),
        forall|i: int|
            0 <= i < remarks.len() ==> spellable(#[trigger] root_tokens(root, sp)[i]),
        forall|i: int| 0 <= i < remarks.len() ==> remarkable(#[trigger] remarks[i]),
    ensures
        compact_schema(
            spelled(root_tokens(root, sp), remarks, remarks.len()),
            base_uri,
            inherited,
        ) == Ok::<RootModel, Text>(root),
{
    let ts = root_tokens(root, sp);
    lemma_spelled_plain(ts, remarks, ts.len());
    law_plain_text_is_kept(spelled(ts, remarks, ts.len()));
    law_tokens_are_split_again(ts, remarks);
    law_schemas_are_read_back(root, compact_context(base_uri, inherited), sp);
}

/// What has been replaced already stands before the rest.
proof fn lemma_unescaped_behind(t: Text, i: int, out: Text)
    requires
        0 <= i <= t.len(),
    ensures
        unescaped_from(t, i, out) == (match unescaped_from(t, i, Seq::empty()) {
            Ok(rest) => Ok(out + rest),
            Err(message) => Err::<Text, Text>(message),
        }),
    decreases t.len() - i,
{
    let none = Seq::<char>::empty();
    if i == t.len() {
        assert(out + none =~= out);
    } else if t[i] != '\\' || i + 1 >= t.len() || t[i + 1] != 'x' {
        lemma_unescaped_behind(t, i + 1, out.push(t[i]));
        lemma_unescaped_behind(t, i + 1, none.push(t[i]));
        match unescaped_from(t, i + 1, none) {
            Ok(rest) => {
                assert(out.push(t[i]) + rest =~= out + (none.push(t[i]) + rest));
            },
            Err(_) => {},
        }
    } else if i + 2 >= t.len() || t[i + 2] != '{' {
    } else {
        let end = hex_end(t, i + 3);
        lemma_hex_end(t, i + 3);
        if end < t.len() && t[end] == '}' {
            match unsigned(t.subrange(i + 3, end), 16, 0xffff_ffff) {
                Some(n) => if scalar_value(n) {
                    let c = n as char;
                    lemma_unescaped_behind(t, end + 1, out.push(c));
                    lemma_unescaped_behind(t, end + 1, none.push(c));
                    match unescaped_from(t, end + 1, none) {
                        Ok(rest) => {
                            assert(out.push(c) + rest =~= out + (none.push(c) + rest));
                        },
                        Err(_) => {},
                    }
                },
                None => {},
            }
        }
    }
}

/// An index from which on two texts are the same gives the same.
proof fn lemma_unescaped_suffix(t: Text, i: int, b: Text, j: int, out: Text)
    requires
        0 <= i,
        0 <= j <= b.len(),
        t.len() - i == b.len() - j,
        t.skip(i) == b.skip(j),
    ensures
        unescaped_from(t, i, out) == unescaped_from(b, j, out),
    decreases t.len() - i,
{
    if i < t.len() {
        lemma_same_from(t, i, b, j, 0);
        if i + 1 < t.len() {
            lemma_same_from(t, i, b, j, 1);
        }
        if t[i] != '\\' || i + 1 >= t.len() || t[i + 1] != 'x' {
            lemma_skipped(t, i, b, j, 1);
            lemma_unescaped_suffix(t, i + 1, b, j + 1, out.push(t[i]));
        } else {
            if i + 2 < t.len() {
                lemma_same_from(t, i, b, j, 2);
            }
            if i + 2 < t.len() && t[i + 2] == '{' {
                let end = hex_end(t, i + 3);
                lemma_skipped(t, i, b, j, 3);
                lemma_hex_end_suffix(t, i + 3, b, j + 3);
                lemma_hex_end(t, i + 3);
                if end < t.len() {
                    lemma_same_from(t, i, b, j, end - i);
                    if t[end] == '}' {
                        let x = t.subrange(i + 3, end);
                        let y = b.subrange(j + 3, end - i + j);
                        assert forall|k: int| 0 <= k < x.len() implies #[trigger] x[k] == y[k] by {
                            lemma_same_from(t, i, b, j, k + 3);
                        }
                        assert(x =~= y);
                        lemma_skipped(t, i, b, j, end + 1 - i);
                        match unsigned(t.subrange(i + 3, end), 16, 0xffff_ffff) {
                            Some(n) => if scalar_value(n) {
                                lemma_unescaped_suffix(
                                    t,
                                    end + 1,
                                    b,
                                    end + 1 - i + j,
                                    out.push(n as char),
                                );
                            },
                            None => {},
                        }
                    }
                }
            }
        }
    }
}

/// What is the same from an index on has the same characters.
proof fn lemma_same_from(t: Text, i: int, b: Text, j: int, k: int)
    requires
        0 <= i,
        0 <= j,
        0 <= k < t.len() - i,
        t.len() - i == b.len() - j,
        t.skip(i) == b.skip(j),
    ensures
        t[i + k] == b[j + k],
{
    assert(t.skip(i)[k] == t[i + k]);
    assert(b.skip(j)[k] == b[j + k]);
}

/// What is the same from an index on is so further on.
proof fn lemma_skipped(t: Text, i: int, b: Text, j: int, k: int)
    requires
        0 <= i,
        0 <= j,
        0 <= k <= t.len() - i,
        t.len() - i == b.len() - j,
        t.skip(i) == b.skip(j),
    ensures
        t.skip(i + k) == b.skip(j + k),
{
    assert(t.skip(i + k) =~= t.skip(i).skip(k));
    assert(b.skip(j + k) =~= b.skip(j).skip(k));
}

/// Digits end at the same place where texts are the same.
proof fn lemma_hex_end_suffix(t: Text, i: int, b: Text, j: int)
    requires
        0 <= i <= t.len(),
        0 <= j,
        t.len() - i == b.len() - j,
        t.skip(i) == b.skip(j),
    ensures
        hex_end(b, j) == hex_end(t, i) - i + j,
    decreases t.len() - i,
{
    if i < t.len() {
        lemma_same_from(t, i, b, j, 0);
        if crate::text::hex_digit(t[i]) {
            lemma_skipped(t, i, b, j, 1);
            lemma_hex_end_suffix(t, i + 1, b, j + 1);
        }
    }
}

/// An escape stands for the character with its number: replacing it, and the escapes behind it,
/// gives what stands before it, that character, and what replacing the rest gives.
pub proof fn law_escapes_stand_for_their_characters(a: Text, digits: Text, b: Text)
    requires
        plain(a),
        a.len() > 0 ==> a.last() != '\\',
        forall|i: int| 0 <= i < digits.len() ==> crate::text::hex_digit(#[trigger] digits[i]),
        digits.len() > 0,
        value_of(digits, 16) < 0xd800 || 0xe000 <= value_of(digits, 16) <= 0x10ffff,
    ensures
        ({
            let t = a + (seq!['\\', 'x', '{'] + digits + seq!['}'] + b);
            match unescaped(b) {
                Ok(rest) => unescaped(t) == Ok::<Text, Text>(
                    a + seq![value_of(digits, 16) as char] + rest,
                ),
                Err(message) => unescaped(t) == Err::<Text, Text>(message),
            }
        }),
{
    let none = Seq::<char>::empty();
    let behind = seq!['\\', 'x', '{'] + digits + seq!['}'] + b;
    let t = a + behind;
    let k = a.len() as int;
    let end = k + 3 + digits.len();
    let c = value_of(digits, 16) as char;
    lemma_plain_prefix(a, behind, 0, none);
    assert(none + a.skip(0) =~= a);
    assert(t[k] == behind[0] && behind[0] == '\\');
    assert(t[k + 1] == behind[1] && behind[1] == 'x');
    assert(t[k + 2] == behind[2] && behind[2] == '{');
    assert forall|i: int| 0 <= i < digits.len() implies t[k + 3 + i] == #[trigger] digits[i] by {
        assert(behind[3 + i] == digits[i]);
    }
    assert(behind[3 + digits.len() as int] == '}');
    assert(t[end] == '}');
    lemma_hex_end_at(t, k + 3, end);
    assert(t.subrange(k + 3, end) =~= digits);
    assert forall|i: int| 0 <= i < digits.len() implies crate::numbers::digit_of(
        #[trigger] digits[i],
    ) < 16 by {
        assert(crate::text::hex_digit(digits[i]));
    }
    assert(unescaped_from(t, k, a) == unescaped_from(t, end + 1, a.push(c)));
    assert(t.skip(end + 1) =~= b.skip(0));
    lemma_unescaped_suffix(t, end + 1, b, 0, a.push(c));
    lemma_unescaped_behind(b, 0, a.push(c));
    assert(a.push(c) =~= a + seq![c]);
}

/// What holds no escape is kept, up to what stands behind it.
proof fn lemma_plain_prefix(a: Text, behind: Text, i: int, out: Text)
    requires
        plain(a),
        a.len() > 0 ==> a.last() != '\\',
        0 <= i <= a.len(),
    ensures
        unescaped_from(a + behind, i, out) == unescaped_from(
            a + behind,
            a.len() as int,
            out + a.skip(i),
        ),
    decreases a.len() - i,
{
    let t = a + behind;
    if i == a.len() {
        assert(out + a.skip(i) =~= out);
    } else {
        assert(t[i] == a[i]);
        if i + 1 < a.len() {
            assert(t[i + 1] == a[i + 1]);
        } else {
            assert(a[i] == a.last());
        }
        lemma_plain_prefix(a, behind, i + 1, out.push(a[i]));
        assert(out.push(a[i]) + a.skip(i + 1) =~= out + a.skip(i));
    }
}

/// Digits go on up to what is none.
proof fn lemma_hex_end_at(t: Text, i: int, end: int)
    requires
        0 <= i <= end < t.len(),
        forall|j: int| i <= j < end ==> crate::text::hex_digit(#[trigger] t[j]),
        !crate::text::hex_digit(t[end]),
    ensures
        hex_end(t, i) == end,
    decreases end - i,
{
    if i < end {
        lemma_hex_end_at(t, i + 1, end);
    }
}

/// What a schema in the compact syntax can count on from the start: the prefixes `xml` and `xsd`
/// stand for their namespaces and no others are declared, names without a prefix are in the
/// inherited namespace, and no datatype library is set.
pub proof fn law_compact_schemas_start_with_two_prefixes(
    base_uri: Text,
    inherited: Option<Text>,
    prefix: Text,
)
    ensures
        ({
            let ctx = compact_context(base_uri, inherited);
            &&& ctx.base_uri == base_uri
            &&& ctx.default_namespace == inherited
            &&& ctx.ns == inherited
            &&& ctx.datatype_library is None
            &&& lookup(ctx.namespaces, "xml"@) == Some("http://www.w3.org/XML/1998/namespace"@)
            &&& lookup(ctx.namespaces, "xsd"@) == Some(
                "http://www.w3.org/2001/XMLSchema-datatypes"@,
            )
            &&& prefix != "xml"@ && prefix != "xsd"@ ==> lookup(ctx.namespaces, prefix) is None
        }),
{
    reveal_strlit("xml");
    reveal_strlit("xsd");
    assert("xml"@[1] == 'm');
    assert("xsd"@[1] == 's');
    let none = Seq::<(Text, Text)>::empty();
    let uri = "http://www.w3.org/XML/1998/namespace"@;
    let types = "http://www.w3.org/2001/XMLSchema-datatypes"@;
    let one = inserted(none, "xml"@, uri);
    lemma_inserted_lookup(none, "xml"@, uri, prefix);
    lemma_inserted_lookup(one, "xsd"@, types, "xml"@);
    lemma_inserted_lookup(one, "xsd"@, types, prefix);
}

} // verus!
