//! Schemas as the compact syntax writes them: reading the tokens that a pattern is written as
//! gives the pattern back.
use vstd::prelude::*;

use crate::compact::{
    after_annotations, after_brackets, compact_name, datatype_of, joined, read_body, read_braced,
    read_braced_items, read_combine, read_declarations, read_definition, read_grammar, read_item,
    read_items, read_level, read_more, read_more_names, read_name_atom, read_name_base,
    read_name_class, read_named, read_params, read_postfix, read_primary, read_reference,
    read_schema, referring, separator, symbol_at, token_at, trim_colons, with_marks,
};
use crate::grammar::{
    Combine, ContextModel, GrammarModel, ItemModel, NameModel, ParamModel, PatternModel, RootModel,
};
use crate::lexer::TokenModel;
use crate::string_map::{inserted, lemma_inserted_lookup, lookup};
use crate::text::{lemma_position, occurs, position, split_once, Text};

verus! {

// ---------------------------------------------------------------------
// Tokens in a sequence
// ---------------------------------------------------------------------

/// Whether tokens stand in a sequence from a position on.
pub open spec fn at(s: Seq<TokenModel>, pos: nat, t: Seq<TokenModel>) -> bool {
    pos + t.len() <= s.len() && forall|i: int| 0 <= i < t.len() ==> s[pos + i] == #[trigger] t[i]
}

/// What stands in a sequence in two parts.
proof fn lemma_at_parts(s: Seq<TokenModel>, pos: nat, a: Seq<TokenModel>, b: Seq<TokenModel>)
    requires
        at(s, pos, a + b),
    ensures
        at(s, pos, a),
        at(s, pos + a.len(), b),
{
    let t = a + b;
    assert forall|i: int| 0 <= i < a.len() implies s[pos + i] == #[trigger] a[i] by {
        assert(t[i] == a[i]);
    }
    assert forall|i: int| 0 <= i < b.len() implies s[pos + a.len() + i] == #[trigger] b[i] by {
        assert(t[a.len() + i] == b[i]);
    }
}

/// A punctuation mark.
pub open spec fn mark(c: char) -> Seq<TokenModel> {
    seq![TokenModel::Symbol(c)]
}

/// A word.
pub open spec fn term(t: Text) -> Seq<TokenModel> {
    seq![TokenModel::Word(t)]
}

/// A string literal.
pub open spec fn quoted(t: Text) -> Seq<TokenModel> {
    seq![TokenModel::Literal(t)]
}

/// What a token that stands in a sequence is.
proof fn lemma_at_one(s: Seq<TokenModel>, pos: nat, t: TokenModel)
    requires
        at(s, pos, seq![t]),
    ensures
        token_at(s, pos) == t,
        pos < s.len(),
{
    assert(seq![t][0] == t);
    assert(s[pos as int] == t);
}

/// How names, datatypes and namespaces are spelled.
pub struct Spelling {
    pub name: spec_fn(Text, Option<Text>, bool) -> Text,
    pub datatype: spec_fn(Text, Option<Text>) -> Text,
    pub prefix: spec_fn(Text) -> Text,
}

/// Whether a word is a name with a prefix, and the prefix stands for a namespace.
pub open spec fn prefixed(w: Text, local: Text, uri: Text, ctx: ContextModel) -> bool {
    exists|prefix: Text|
        w == #[trigger] (prefix + seq![':'] + local) && !prefix.contains(':') && lookup(
            ctx.namespaces,
            prefix,
        ) == Some(uri)
}

/// Whether a word spells a name: the local name where the namespace is the one that a name
/// without a prefix has, and the local name behind a prefix for the namespace otherwise.
pub open spec fn spells_name(
    w: Text,
    local: Text,
    namespace: Option<Text>,
    is_attribute: bool,
    ctx: ContextModel,
) -> bool {
    ||| w == local && !w.contains(':') && namespace == (if is_attribute {
        Some(Seq::<char>::empty())
    } else {
        ctx.default_namespace
    })
    ||| namespace is Some && prefixed(w, local, namespace->0, ctx) && !(w.last() == ':')
}

/// What stands before and after a colon.
pub proof fn lemma_split(prefix: Text, local: Text)
    requires
        !prefix.contains(':'),
    ensures
        split_once(prefix + seq![':'] + local, ':') == Some((prefix, local)),
{
    let w = prefix + seq![':'] + local;
    lemma_occurs(prefix, ':');
    lemma_absent(prefix, ':');
    assert forall|j: int| 0 <= j < prefix.len() implies #[trigger] w[j] != ':' by {
        assert(w[j] == prefix[j]);
    }
    lemma_position(w, ':', prefix.len());
    assert(w.take(prefix.len() as int) =~= prefix);
    assert(w.skip(prefix.len() as int + 1) =~= local);
}

/// A character occurs in a text just where it stands somewhere in it.
pub proof fn lemma_occurs(t: Text, c: char)
    ensures
        occurs(t, c) <==> t.contains(c),
{
    if occurs(t, c) {
        lemma_position_bound(t, c);
        lemma_position_holds(t, c);
    } else {
        lemma_absent(t, c);
    }
}

/// The position of a character that occurs is one where it stands.
proof fn lemma_position_holds(t: Text, c: char)
    requires
        position(t, c) < t.len(),
    ensures
        t[position(t, c) as int] == c,
    decreases t.len(),
{
    if t[0] != c {
        lemma_position_holds(t.drop_first(), c);
    }
}

/// A character that does not occur stands nowhere.
proof fn lemma_absent(t: Text, c: char)
    requires
        !occurs(t, c),
    ensures
        forall|i: int| 0 <= i < t.len() ==> #[trigger] t[i] != c,
    decreases t.len(),
{
    lemma_position_bound(t, c);
    if t.len() > 0 {
        let rest = t.drop_first();
        lemma_position_bound(rest, c);
        assert(t[0] != c);
        lemma_absent(rest, c);
        assert forall|i: int| 0 <= i < t.len() implies #[trigger] t[i] != c by {
            if i > 0 {
                assert(rest[i - 1] == t[i]);
            }
        }
    }
}

/// The position of a character is within the text, or its length.
proof fn lemma_position_bound(t: Text, c: char)
    ensures
        position(t, c) <= t.len(),
    decreases t.len(),
{
    if t.len() > 0 && t[0] != c {
        lemma_position_bound(t.drop_first(), c);
    }
}

// ---------------------------------------------------------------------
// Name classes
// ---------------------------------------------------------------------

/// Whether a name class is written without parentheses among alternatives.
pub open spec fn name_alone(n: NameModel) -> bool {
    match n {
        NameModel::Name { lexical, namespace, context } => true,
        NameModel::Any { except, context } => except.len() == 0,
        NameModel::Namespace { namespace, except, context } => except.len() == 0,
        NameModel::Choice(_) => false,
    }
}

/// A name class as it is written, in parentheses where it stands among alternatives and needs
/// them.
pub open spec fn name_tokens(n: NameModel, is_attribute: bool, among: bool, sp: Spelling) -> Seq<
    TokenModel,
>
    decreases n, 1nat,
{
    if among && !name_alone(n) {
        mark('(') + bare_name_tokens(n, is_attribute, sp) + mark(')')
    } else {
        bare_name_tokens(n, is_attribute, sp)
    }
}

/// A name class as it is written, without parentheses.
pub open spec fn bare_name_tokens(n: NameModel, is_attribute: bool, sp: Spelling) -> Seq<TokenModel>
    decreases n, 0nat,
{
    match n {
        NameModel::Name { lexical, namespace, context } => term(
            (sp.name)(lexical, namespace, is_attribute),
        ),
        NameModel::Any { except, context } => mark('*') + except_tokens(except, is_attribute, sp),
        NameModel::Namespace { namespace, except, context } => term(
            (sp.prefix)(namespace->0) + seq![':'],
        ) + mark('*') + except_tokens(except, is_attribute, sp),
        NameModel::Choice(options) => option_tokens(options, is_attribute, sp, options.len()),
    }
}

/// The exception of a wildcard, where there is one.
pub open spec fn except_tokens(except: Seq<NameModel>, is_attribute: bool, sp: Spelling) -> Seq<
    TokenModel,
>
    decreases except, 0nat,
{
    if except.len() == 0 {
        Seq::empty()
    } else {
        mark('-') + name_tokens(except[0], is_attribute, false, sp)
    }
}

/// The first `n` alternatives of a name class.
pub open spec fn option_tokens(
    options: Seq<NameModel>,
    is_attribute: bool,
    sp: Spelling,
    n: nat,
) -> Seq<TokenModel>
    decreases options, n,
{
    if n == 0 || n > options.len() {
        Seq::empty()
    } else if n == 1 {
        name_tokens(options[0], is_attribute, true, sp)
    } else {
        option_tokens(options, is_attribute, sp, (n - 1) as nat) + mark('|') + name_tokens(
            options[n - 1],
            is_attribute,
            true,
            sp,
        )
    }
}

/// Whether a name class can be written: each name is spelled as its context has it.
pub open spec fn name_writable(
    n: NameModel,
    is_attribute: bool,
    ctx: ContextModel,
    sp: Spelling,
) -> bool
    decreases n,
{
    match n {
        NameModel::Name { lexical, namespace, context } => context == ctx && spells_name(
            (sp.name)(lexical, namespace, is_attribute),
            lexical,
            namespace,
            is_attribute,
            ctx,
        ),
        NameModel::Any { except, context } => context == ctx && except.len() <= 1 && forall|i: int|
            0 <= i < except.len() ==> name_writable(#[trigger] except[i], is_attribute, ctx, sp),
        NameModel::Namespace { namespace, except, context } => context == ctx && namespace is Some
            && except.len() <= 1 && {
            let prefix = (sp.prefix)(namespace->0);
            lookup(ctx.namespaces, prefix) == namespace && !(prefix.len() > 0 && prefix.last()
                == ':')
        } && forall|i: int|
            0 <= i < except.len() ==> name_writable(#[trigger] except[i], is_attribute, ctx, sp),
        NameModel::Choice(options) => options.len() >= 2 && forall|i: int|
            0 <= i < options.len() ==> name_writable(#[trigger] options[i], is_attribute, ctx, sp),
    }
}

/// Whether a token can stand behind a name class: a brace, a closing parenthesis, or, among
/// alternatives, a bar.
pub open spec fn ends_name(t: TokenModel, among: bool) -> bool {
    t == TokenModel::Symbol('{') || t == TokenModel::Symbol(')') || among && t
        == TokenModel::Symbol('|')
}

/// A name that a word spells is read from it.
proof fn lemma_spelled(
    w: Text,
    local: Text,
    namespace: Option<Text>,
    is_attribute: bool,
    ctx: ContextModel,
)
    requires
        spells_name(w, local, namespace, is_attribute, ctx),
    ensures
        compact_name(w, is_attribute, ctx) == Ok::<(Text, Option<Text>), Text>((local, namespace)),
        !(w.len() > 0 && w.last() == ':'),
{
    if w == local && !w.contains(':') && namespace == (if is_attribute {
        Some(Seq::<char>::empty())
    } else {
        ctx.default_namespace
    }) {
        lemma_occurs(w, ':');
        lemma_absent(w, ':');
    } else {
        let prefix = choose|prefix: Text|
            w == #[trigger] (prefix + seq![':'] + local) && !prefix.contains(':') && lookup(
                ctx.namespaces,
                prefix,
            ) == Some(namespace->0);
        lemma_split(prefix, local);
    }
}

/// A wildcard with its exception is read from its tokens.
proof fn lemma_wildcard(
    n: NameModel,
    is_attribute: bool,
    ctx: ContextModel,
    sp: Spelling,
    s: Seq<TokenModel>,
    pos: nat,
    base: NameModel,
    next: nat,
    except: Seq<NameModel>,
)
    requires
        !symbol_at(s, pos, '('),
        pos < next,
        read_name_base(s, pos, ctx, is_attribute) == Ok::<(NameModel, nat), Text>((base, next)),
        base matches NameModel::Any { except: none, context } ==> n == (NameModel::Any {
            except,
            context,
        }) && none.len() == 0,
        base matches NameModel::Namespace { namespace, except: none, context } ==> n == (
        NameModel::Namespace { namespace, except, context }) && none.len() == 0,
        base is Any || base is Namespace,
        except.len() <= 1,
        except.len() == 1 ==> name_writable(except[0], is_attribute, ctx, sp),
        at(s, next, except_tokens(except, is_attribute, sp)),
        ends_name(
            token_at(s, next + except_tokens(except, is_attribute, sp).len()),
            except.len() == 0,
        ),
    ensures
        read_name_atom(s, pos, ctx, is_attribute) == Ok::<(NameModel, nat), Text>(
            (n, next + except_tokens(except, is_attribute, sp).len()),
        ),
    decreases except, 1nat, 0nat,
{
    if except.len() == 0 {
        assert(except =~= Seq::<NameModel>::empty());
    } else {
        let inner = name_tokens(except[0], is_attribute, false, sp);
        lemma_at_parts(s, next, mark('-'), inner);
        lemma_at_one(s, next, TokenModel::Symbol('-'));
        lemma_read_name(except[0], is_attribute, ctx, sp, s, next + 1);
        assert(except =~= seq![except[0]]);
    }
}

/// A name class is read from the tokens that it is written as.
proof fn lemma_read_name(
    n: NameModel,
    is_attribute: bool,
    ctx: ContextModel,
    sp: Spelling,
    s: Seq<TokenModel>,
    pos: nat,
)
    requires
        name_writable(n, is_attribute, ctx, sp),
        at(s, pos, name_tokens(n, is_attribute, false, sp)),
        ends_name(token_at(s, pos + name_tokens(n, is_attribute, false, sp).len()), false),
    ensures
        read_name_class(s, pos, ctx, is_attribute) == Ok::<(NameModel, nat), Text>(
            (n, pos + name_tokens(n, is_attribute, false, sp).len()),
        ),
        name_tokens(n, is_attribute, false, sp).len() > 0,
    decreases n, 3nat, 0nat,
{
    match n {
        NameModel::Choice(options) => {
            let k = options.len();
            lemma_options_shorter(options, is_attribute, sp, 1, k);
            lemma_at_prefix_options(options, is_attribute, sp, 1, k, s, pos);
            lemma_at_prefix_options(options, is_attribute, sp, 2, k, s, pos);
            let one = option_tokens(options, is_attribute, sp, 1);
            let two = name_tokens(options[1], is_attribute, true, sp);
            assert(option_tokens(options, is_attribute, sp, 2) == one + mark('|') + two);
            lemma_at_parts(s, pos, one + mark('|'), two);
            lemma_at_parts(s, pos, one, mark('|'));
            lemma_at_one(s, pos + one.len(), TokenModel::Symbol('|'));
            assert(name_writable(options[0], is_attribute, ctx, sp));
            lemma_read_atom(options[0], is_attribute, ctx, sp, s, pos);
            assert(options.take(1) =~= seq![options[0]]);
            lemma_read_options(options, is_attribute, ctx, sp, s, pos, 1);
        },
        _ => {
            lemma_read_bare(n, is_attribute, ctx, sp, s, pos, false);
        },
    }
}

/// A name class that is no choice is read from the tokens that it is written as.
proof fn lemma_read_bare(
    n: NameModel,
    is_attribute: bool,
    ctx: ContextModel,
    sp: Spelling,
    s: Seq<TokenModel>,
    pos: nat,
    among: bool,
)
    requires
        !(n is Choice),
        name_writable(n, is_attribute, ctx, sp),
        at(s, pos, bare_name_tokens(n, is_attribute, sp)),
        ends_name(
            token_at(s, pos + bare_name_tokens(n, is_attribute, sp).len()),
            among && name_alone(n),
        ),
    ensures
        read_name_atom(s, pos, ctx, is_attribute) == Ok::<(NameModel, nat), Text>(
            (n, pos + bare_name_tokens(n, is_attribute, sp).len()),
        ),
        bare_name_tokens(n, is_attribute, sp).len() > 0,
    decreases n, 2nat, 0nat,
{
    match n {
        NameModel::Name { lexical, namespace, context } => {
            let w = (sp.name)(lexical, namespace, is_attribute);
            lemma_at_one(s, pos, TokenModel::Word(w));
            lemma_spelled(w, lexical, namespace, is_attribute, ctx);
        },
        NameModel::Any { except, context } => {
            lemma_at_parts(s, pos, mark('*'), except_tokens(except, is_attribute, sp));
            lemma_at_one(s, pos, TokenModel::Symbol('*'));
            let base = NameModel::Any { except: Seq::empty(), context: ctx };
            if except.len() == 1 {
                assert(name_writable(except[0], is_attribute, ctx, sp));
            }
            lemma_wildcard(n, is_attribute, ctx, sp, s, pos, base, pos + 1, except);
        },
        NameModel::Namespace { namespace, except, context } => {
            let prefix = (sp.prefix)(namespace->0);
            let w = prefix + seq![':'];
            let rest = except_tokens(except, is_attribute, sp);
            lemma_at_parts(s, pos, term(w) + mark('*'), rest);
            lemma_at_parts(s, pos, term(w), mark('*'));
            lemma_at_one(s, pos, TokenModel::Word(w));
            lemma_at_one(s, pos + 1, TokenModel::Symbol('*'));
            assert(w.last() == ':');
            assert(w.drop_last() =~= prefix);
            reveal_with_fuel(trim_colons, 2);
            assert(trim_colons(w) == prefix);
            let base = NameModel::Namespace { namespace, except: Seq::empty(), context: ctx };
            if except.len() == 1 {
                assert(name_writable(except[0], is_attribute, ctx, sp));
            }
            lemma_wildcard(n, is_attribute, ctx, sp, s, pos, base, pos + 2, except);
        },
        NameModel::Choice(_) => {},
    }
}

/// A name class among alternatives is read from the tokens that it is written as.
proof fn lemma_read_atom(
    n: NameModel,
    is_attribute: bool,
    ctx: ContextModel,
    sp: Spelling,
    s: Seq<TokenModel>,
    pos: nat,
)
    requires
        name_writable(n, is_attribute, ctx, sp),
        at(s, pos, name_tokens(n, is_attribute, true, sp)),
        ends_name(token_at(s, pos + name_tokens(n, is_attribute, true, sp).len()), true),
    ensures
        read_name_atom(s, pos, ctx, is_attribute) == Ok::<(NameModel, nat), Text>(
            (n, pos + name_tokens(n, is_attribute, true, sp).len()),
        ),
        name_tokens(n, is_attribute, true, sp).len() > 0,
    decreases n, 4nat, 0nat,
{
    if name_alone(n) {
        lemma_read_bare(n, is_attribute, ctx, sp, s, pos, true);
    } else {
        let inner = bare_name_tokens(n, is_attribute, sp);
        lemma_at_parts(s, pos, mark('(') + inner, mark(')'));
        lemma_at_parts(s, pos, mark('('), inner);
        lemma_at_one(s, pos, TokenModel::Symbol('('));
        lemma_at_one(s, pos + 1 + inner.len(), TokenModel::Symbol(')'));
        assert(inner == name_tokens(n, is_attribute, false, sp));
        lemma_read_name(n, is_attribute, ctx, sp, s, pos + 1);
    }
}

/// Fewer alternatives take fewer tokens.
proof fn lemma_options_shorter(
    options: Seq<NameModel>,
    is_attribute: bool,
    sp: Spelling,
    i: nat,
    n: nat,
)
    requires
        0 < i <= n <= options.len(),
    ensures
        option_tokens(options, is_attribute, sp, i).len() <= option_tokens(
            options,
            is_attribute,
            sp,
            n,
        ).len(),
    decreases n,
{
    if i < n {
        lemma_options_shorter(options, is_attribute, sp, i, (n - 1) as nat);
    }
}

/// The first alternatives stand where all do.
proof fn lemma_at_prefix_options(
    options: Seq<NameModel>,
    is_attribute: bool,
    sp: Spelling,
    i: nat,
    n: nat,
    s: Seq<TokenModel>,
    pos: nat,
)
    requires
        0 < i <= n <= options.len(),
        at(s, pos, option_tokens(options, is_attribute, sp, n)),
    ensures
        at(s, pos, option_tokens(options, is_attribute, sp, i)),
    decreases n,
{
    if i < n {
        let k = (n - 1) as nat;
        let front = option_tokens(options, is_attribute, sp, k);
        let last = name_tokens(options[n - 1], is_attribute, true, sp);
        lemma_at_parts(s, pos, front + mark('|'), last);
        lemma_at_parts(s, pos, front, mark('|'));
        lemma_at_prefix_options(options, is_attribute, sp, i, k, s, pos);
    }
}

/// The alternatives that follow the first `k` are read after them.
proof fn lemma_read_options(
    options: Seq<NameModel>,
    is_attribute: bool,
    ctx: ContextModel,
    sp: Spelling,
    s: Seq<TokenModel>,
    pos: nat,
    k: nat,
)
    requires
        1 <= k <= options.len(),
        options.len() >= 2,
        forall|i: int|
            0 <= i < options.len() ==> name_writable(#[trigger] options[i], is_attribute, ctx, sp),
        at(s, pos, option_tokens(options, is_attribute, sp, options.len())),
        ends_name(
            token_at(s, pos + option_tokens(options, is_attribute, sp, options.len()).len()),
            false,
        ),
    ensures
        read_more_names(
            s,
            pos + option_tokens(options, is_attribute, sp, k).len(),
            ctx,
            is_attribute,
            options.take(k as int),
        ) == Ok::<(NameModel, nat), Text>(
            (
                NameModel::Choice(options),
                pos + option_tokens(options, is_attribute, sp, options.len()).len(),
            ),
        ),
    decreases options, 0nat, options.len() - k,
{
    let n = options.len();
    if k == n {
        assert(options.take(n as int) =~= options);
    } else {
        let front = option_tokens(options, is_attribute, sp, k);
        let next = name_tokens(options[k as int], is_attribute, true, sp);
        lemma_at_prefix_options(options, is_attribute, sp, k + 1, n, s, pos);
        assert(option_tokens(options, is_attribute, sp, k + 1) == front + mark('|') + next);
        lemma_at_parts(s, pos, front + mark('|'), next);
        lemma_at_parts(s, pos, front, mark('|'));
        lemma_at_one(s, pos + front.len(), TokenModel::Symbol('|'));
        let end = pos + front.len() + 1 + next.len();
        if k + 1 < n {
            let more = option_tokens(options, is_attribute, sp, k + 1);
            let after = name_tokens(options[k as int + 1], is_attribute, true, sp);
            lemma_at_prefix_options(options, is_attribute, sp, k + 2, n, s, pos);
            assert(option_tokens(options, is_attribute, sp, k + 2) == more + mark('|') + after);
            lemma_at_parts(s, pos, more + mark('|'), after);
            lemma_at_parts(s, pos, more, mark('|'));
            lemma_at_one(s, pos + more.len(), TokenModel::Symbol('|'));
        }
        assert(name_writable(options[k as int], is_attribute, ctx, sp));
        lemma_read_atom(options[k as int], is_attribute, ctx, sp, s, pos + front.len() + 1);
        lemma_read_options(options, is_attribute, ctx, sp, s, pos, k + 1);
        assert(options.take(k as int).push(options[k as int]) =~= options.take(k as int + 1));
    }
}

// ---------------------------------------------------------------------
// Patterns
// ---------------------------------------------------------------------

/// The words that start a pattern of their own.
pub open spec fn keyword(w: Text) -> bool {
    w == "element"@ || w == "attribute"@ || w == "list"@ || w == "mixed"@ || w == "grammar"@ || w
        == "external"@ || w == "parent"@ || w == "empty"@ || w == "text"@ || w == "notAllowed"@
}

/// The words that start a pattern, a definition or a clause are all different.
proof fn lemma_keywords()
    ensures
        "element"@ != "attribute"@,
        "list"@ != "element"@ && "list"@ != "attribute"@,
        "mixed"@ != "element"@ && "mixed"@ != "attribute"@ && "mixed"@ != "list"@,
        "grammar"@ != "element"@ && "grammar"@ != "attribute"@ && "grammar"@ != "list"@
            && "grammar"@ != "mixed"@,
        "external"@ != "element"@ && "external"@ != "attribute"@ && "external"@ != "list"@
            && "external"@ != "mixed"@ && "external"@ != "grammar"@,
        "parent"@ != "element"@ && "parent"@ != "attribute"@ && "parent"@ != "list"@ && "parent"@
            != "mixed"@ && "parent"@ != "grammar"@ && "parent"@ != "external"@,
        "empty"@ != "element"@ && "empty"@ != "attribute"@ && "empty"@ != "list"@ && "empty"@
            != "mixed"@ && "empty"@ != "grammar"@ && "empty"@ != "external"@ && "empty"@
            != "parent"@,
        "text"@ != "element"@ && "text"@ != "attribute"@ && "text"@ != "list"@ && "text"@
            != "mixed"@ && "text"@ != "grammar"@ && "text"@ != "external"@ && "text"@ != "parent"@
            && "text"@ != "empty"@,
        "notAllowed"@ != "element"@ && "notAllowed"@ != "attribute"@ && "notAllowed"@ != "list"@
            && "notAllowed"@ != "mixed"@ && "notAllowed"@ != "grammar"@ && "notAllowed"@
            != "external"@ && "notAllowed"@ != "parent"@ && "notAllowed"@ != "empty"@
            && "notAllowed"@ != "text"@,
        "include"@ != "div"@ && "start"@ != "div"@ && "start"@ != "include"@,
        "inherit"@ != "div"@ && "inherit"@ != "include"@ && "inherit"@ != "start"@,
{
    reveal_strlit("element");
    reveal_strlit("attribute");
    reveal_strlit("list");
    reveal_strlit("mixed");
    reveal_strlit("grammar");
    reveal_strlit("external");
    reveal_strlit("parent");
    reveal_strlit("empty");
    reveal_strlit("text");
    reveal_strlit("notAllowed");
    reveal_strlit("div");
    reveal_strlit("include");
    reveal_strlit("start");
    reveal_strlit("inherit");
    assert("element"@.len() == 7 && "element"@[0] == 'e');
    assert("attribute"@.len() == 9);
    assert("list"@.len() == 4 && "list"@[0] == 'l');
    assert("mixed"@.len() == 5 && "mixed"@[0] == 'm');
    assert("grammar"@.len() == 7 && "grammar"@[0] == 'g');
    assert("external"@.len() == 8);
    assert("parent"@.len() == 6);
    assert("empty"@.len() == 5 && "empty"@[0] == 'e');
    assert("text"@.len() == 4 && "text"@[0] == 't');
    assert("notAllowed"@.len() == 10);
    assert("div"@.len() == 3);
    assert("include"@.len() == 7 && "include"@[2] == 'c');
    assert("start"@.len() == 5);
    assert("inherit"@.len() == 7 && "inherit"@[2] == 'h');
}

/// Whether a word spells a datatype of a library: a built-in one by its name, another one
/// behind a prefix for its library.
pub open spec fn spells_datatype(
    w: Text,
    datatype: Text,
    library: Option<Text>,
    ctx: ContextModel,
) -> bool {
    !keyword(w) && (w == datatype && !w.contains(':') && library == Some(Seq::<char>::empty()) || (
    library is Some && prefixed(w, datatype, library->0, ctx)))
}

/// How tightly a pattern holds together: alternatives least, then interleaved operands, then
/// those in order, then a repeated pattern, and a pattern without operators most. An
/// exception reaches as far as alternatives do.
pub open spec fn strength(p: PatternModel) -> nat {
    match p {
        PatternModel::Choice(_) => 0,
        PatternModel::Interleave(_) => 1,
        PatternModel::Group(_) => 2,
        PatternModel::Optional(_) => 3,
        PatternModel::ZeroOrMore(_) => 3,
        PatternModel::OneOrMore(_) => 3,
        PatternModel::Data { datatype, datatype_library, params, except, context } => {
            if except.len() > 0 {
                0
            } else {
                4
            }
        },
        _ => 4,
    }
}

/// Parameters as they are written: each its name, an equals sign and its value.
pub open spec fn param_tokens(params: Seq<ParamModel>) -> Seq<TokenModel> {
    Seq::new(
        3 * params.len(),
        |i: int|
            if i % 3 == 0 {
                TokenModel::Word(params[i / 3].name)
            } else if i % 3 == 1 {
                TokenModel::Symbol('=')
            } else {
                TokenModel::Literal(params[i / 3].value)
            },
    )
}

/// Whether a datatype is written as its name alone.
pub open spec fn name_suffices(
    w: Text,
    params: Seq<ParamModel>,
    except: Seq<PatternModel>,
) -> bool {
    params.len() == 0 && except.len() == 0 && (w.contains(':') || w == "string"@ || w == "token"@)
}

/// The clause that names an inherited namespace, where there is one.
pub open spec fn inherit_tokens(inherit_namespace: Option<Text>, sp: Spelling) -> Seq<TokenModel> {
    match inherit_namespace {
        Some(uri) => term("inherit"@) + mark('=') + term((sp.prefix)(uri)),
        None => Seq::empty(),
    }
}

/// The sign of a definition, by how it combines with others of its name.
pub open spec fn combine_tokens(combine: Option<Combine>) -> Seq<TokenModel> {
    match combine {
        Some(Combine::Choice) => mark('|') + mark('='),
        Some(Combine::Interleave) => mark('&') + mark('='),
        None => mark('='),
    }
}

/// A pattern as it is written where operators of a strength stand around it: in parentheses
/// where it holds together less than they do.
pub open spec fn tokens(p: PatternModel, level: nat, sp: Spelling) -> Seq<TokenModel>
    decreases p, 1nat,
{
    if strength(p) < level {
        mark('(') + bare_tokens(p, sp) + mark(')')
    } else {
        bare_tokens(p, sp)
    }
}

/// A pattern as it is written, without parentheses around it.
pub open spec fn bare_tokens(p: PatternModel, sp: Spelling) -> Seq<TokenModel>
    decreases p, 0nat,
{
    match p {
        PatternModel::Element { name, body, context } => term("element"@) + name_tokens(
            name,
            false,
            false,
            sp,
        ) + braced_tokens(body, sp),
        PatternModel::Attribute { name, body, context } => term("attribute"@) + name_tokens(
            name,
            true,
            false,
            sp,
        ) + braced_tokens(body, sp),
        PatternModel::Group(values) => operand_tokens(values, 2, sp, values.len()),
        PatternModel::Interleave(values) => operand_tokens(values, 1, sp, values.len()),
        PatternModel::Choice(values) => operand_tokens(values, 0, sp, values.len()),
        PatternModel::Optional(body) => operand_tokens(body, 2, sp, 1) + mark('?'),
        PatternModel::ZeroOrMore(body) => operand_tokens(body, 2, sp, 1) + mark('*'),
        PatternModel::OneOrMore(body) => operand_tokens(body, 2, sp, 1) + mark('+'),
        PatternModel::List(body) => term("list"@) + braced_tokens(body, sp),
        PatternModel::Mixed(body) => term("mixed"@) + braced_tokens(body, sp),
        PatternModel::Empty => term("empty"@),
        PatternModel::NotAllowed => term("notAllowed"@),
        PatternModel::Text => term("text"@),
        PatternModel::Data { datatype, datatype_library, params, except, context } => {
            let w = (sp.datatype)(datatype, datatype_library);
            if name_suffices(w, params, except) {
                term(w)
            } else {
                term(w) + mark('{') + param_tokens(params) + mark('}') + exception_tokens(
                    except,
                    sp,
                )
            }
        },
        PatternModel::Value { value, datatype, datatype_library, namespace, context } => {
            match datatype {
                Some(local) => term((sp.datatype)(local, datatype_library)) + quoted(value),
                None => quoted(value),
            }
        },
        PatternModel::Ref(name) => term(name),
        PatternModel::ParentRef(name) => term("parent"@) + term(name),
        PatternModel::ExternalRef { href, inherit_namespace, context } => term("external"@)
            + quoted(href) + inherit_tokens(inherit_namespace, sp),
        PatternModel::Grammar(grammar) => term("grammar"@) + grammar_tokens(grammar, sp),
    }
}

/// A pattern in braces.
pub open spec fn braced_tokens(body: Seq<PatternModel>, sp: Spelling) -> Seq<TokenModel>
    decreases body, 0nat,
{
    if body.len() == 0 {
        Seq::empty()
    } else {
        mark('{') + tokens(body[0], 0, sp) + mark('}')
    }
}

/// The exception of a datatype, where there is one.
pub open spec fn exception_tokens(except: Seq<PatternModel>, sp: Spelling) -> Seq<TokenModel>
    decreases except, 0nat,
{
    if except.len() == 0 {
        Seq::empty()
    } else {
        mark('-') + tokens(except[0], 0, sp)
    }
}

/// The operator of a strength.
pub open spec fn operator(level: nat) -> char {
    if level == 0 {
        '|'
    } else if level == 1 {
        '&'
    } else {
        ','
    }
}

/// The first `n` operands, with the operator between each two.
pub open spec fn operand_tokens(
    values: Seq<PatternModel>,
    level: nat,
    sp: Spelling,
    n: nat,
) -> Seq<TokenModel>
    decreases values, n,
{
    if n == 0 || n > values.len() {
        Seq::empty()
    } else if n == 1 {
        tokens(values[0], level + 1, sp)
    } else {
        operand_tokens(values, level, sp, (n - 1) as nat) + mark(operator(level)) + tokens(
            values[n - 1],
            level + 1,
            sp,
        )
    }
}

/// A grammar in braces.
pub open spec fn grammar_tokens(grammar: GrammarModel, sp: Spelling) -> Seq<TokenModel>
    decreases grammar, 0nat,
{
    mark('{') + item_tokens(grammar.items, sp, grammar.items.len()) + mark('}')
}

/// The first `n` grammar components, one after the other.
pub open spec fn item_tokens(items: Seq<ItemModel>, sp: Spelling, n: nat) -> Seq<TokenModel>
    decreases items, n,
{
    if n == 0 || n > items.len() {
        Seq::empty()
    } else {
        item_tokens(items, sp, (n - 1) as nat) + one_item_tokens(items[n - 1], sp)
    }
}

/// A grammar component as it is written.
pub open spec fn one_item_tokens(item: ItemModel, sp: Spelling) -> Seq<TokenModel>
    decreases item, 0nat,
{
    match item {
        ItemModel::Start { combine, body } => term("start"@) + combine_tokens(combine)
            + defined_tokens(body, sp),
        ItemModel::Define { name, combine, body } => term(name) + combine_tokens(combine)
            + defined_tokens(body, sp),
        ItemModel::Div(items) => term("div"@) + mark('{') + item_tokens(items, sp, items.len())
            + mark('}'),
        ItemModel::Include { href, inherit_namespace, body, context } => {
            let front = term("include"@) + quoted(href) + inherit_tokens(inherit_namespace, sp);
            if body.len() == 0 {
                front
            } else {
                front + mark('{') + item_tokens(body, sp, body.len()) + mark('}')
            }
        },
    }
}

/// What a name is defined as.
pub open spec fn defined_tokens(body: Seq<PatternModel>, sp: Spelling) -> Seq<TokenModel>
    decreases body, 0nat,
{
    if body.len() == 0 {
        Seq::empty()
    } else {
        tokens(body[0], 0, sp)
    }
}

/// Whether a reference to another schema is in its context: that around it, with the
/// namespace that it names in force.
pub open spec fn refers(
    inherit_namespace: Option<Text>,
    context: ContextModel,
    ctx: ContextModel,
    sp: Spelling,
) -> bool {
    match inherit_namespace {
        Some(uri) => lookup(ctx.namespaces, (sp.prefix)(uri)) == Some(uri) && context == (
        ContextModel { ns: Some(uri), ..ctx }),
        None => context == ctx,
    }
}

/// Whether a pattern can be written in a context: it was read there, its names, datatypes
/// and namespaces are spelled as the context has them, and each operator has the operands
/// that it takes.
pub open spec fn writable(p: PatternModel, ctx: ContextModel, sp: Spelling) -> bool
    decreases p,
{
    match p {
        PatternModel::Element { name, body, context } => context == ctx && name_writable(
            name,
            false,
            ctx,
            sp,
        ) && body.len() == 1 && all_writable(body, ctx, sp),
        PatternModel::Attribute { name, body, context } => context == ctx && name_writable(
            name,
            true,
            ctx,
            sp,
        ) && body.len() == 1 && all_writable(body, ctx, sp),
        PatternModel::Group(values) => values.len() >= 2 && all_writable(values, ctx, sp),
        PatternModel::Interleave(values) => values.len() >= 2 && all_writable(values, ctx, sp),
        PatternModel::Choice(values) => values.len() >= 2 && all_writable(values, ctx, sp),
        PatternModel::Optional(body) => body.len() == 1 && all_writable(body, ctx, sp),
        PatternModel::ZeroOrMore(body) => body.len() == 1 && all_writable(body, ctx, sp),
        PatternModel::OneOrMore(body) => body.len() == 1 && all_writable(body, ctx, sp),
        PatternModel::List(body) => body.len() == 1 && all_writable(body, ctx, sp),
        PatternModel::Mixed(body) => body.len() == 1 && all_writable(body, ctx, sp),
        PatternModel::Empty => true,
        PatternModel::NotAllowed => true,
        PatternModel::Text => true,
        PatternModel::Data { datatype, datatype_library, params, except, context } => context == ctx
            && spells_datatype(
            (sp.datatype)(datatype, datatype_library),
            datatype,
            datatype_library,
            ctx,
        ) && (forall|i: int| 0 <= i < params.len() ==> (#[trigger] params[i]).context == ctx)
            && except.len() <= 1 && all_writable(except, ctx, sp),
        PatternModel::Value { value, datatype, datatype_library, namespace, context } => context
            == ctx && namespace is None && match datatype {
            Some(local) => spells_datatype(
                (sp.datatype)(local, datatype_library),
                local,
                datatype_library,
                ctx,
            ),
            None => datatype_library is None,
        },
        PatternModel::Ref(name) => !keyword(name) && !name.contains(':') && name != "string"@
            && name != "token"@,
        PatternModel::ParentRef(name) => true,
        PatternModel::ExternalRef { href, inherit_namespace, context } => refers(
            inherit_namespace,
            context,
            ctx,
            sp,
        ),
        PatternModel::Grammar(grammar) => grammar_writable(grammar, ctx, sp),
    }
}

/// Whether each of some patterns can be written.
pub open spec fn all_writable(values: Seq<PatternModel>, ctx: ContextModel, sp: Spelling) -> bool
    decreases values,
{
    forall|i: int| 0 <= i < values.len() ==> writable(#[trigger] values[i], ctx, sp)
}

/// Whether a grammar can be written.
pub open spec fn grammar_writable(grammar: GrammarModel, ctx: ContextModel, sp: Spelling) -> bool
    decreases grammar,
{
    grammar.context == ctx && items_writable(grammar.items, ctx, sp)
}

/// Whether each of some grammar components can be written.
pub open spec fn items_writable(items: Seq<ItemModel>, ctx: ContextModel, sp: Spelling) -> bool
    decreases items,
{
    forall|i: int| 0 <= i < items.len() ==> item_writable(#[trigger] items[i], ctx, sp)
}

/// Whether a grammar component can be written.
pub open spec fn item_writable(item: ItemModel, ctx: ContextModel, sp: Spelling) -> bool
    decreases item,
{
    match item {
        ItemModel::Start { combine, body } => body.len() == 1 && all_writable(body, ctx, sp),
        ItemModel::Define { name, combine, body } => name != "start"@ && name != "div"@ && name
            != "include"@ && name != "inherit"@ && body.len() == 1 && all_writable(body, ctx, sp),
        ItemModel::Div(items) => items_writable(items, ctx, sp),
        ItemModel::Include { href, inherit_namespace, body, context } => refers(
            inherit_namespace,
            context,
            ctx,
            sp,
        ) && items_writable(body, ctx, sp),
    }
}

/// Whether a token does not go on with a pattern without operators.
pub open spec fn parts(t: TokenModel) -> bool {
    !(t is Literal) && t != TokenModel::Symbol('{') && t != TokenModel::Symbol('-') && t
        != TokenModel::Word("inherit"@)
}

/// Whether a token does not go on with a pattern of a strength: no operator that binds as
/// tightly, no repetition mark and no annotation.
pub open spec fn ends(t: TokenModel, level: nat) -> bool {
    parts(t) && t != TokenModel::Symbol('?') && t != TokenModel::Symbol('*') && t
        != TokenModel::Symbol('+') && t != TokenModel::Symbol('[') && (level <= 2 ==> t
        != TokenModel::Symbol(',')) && (level <= 1 ==> t != TokenModel::Symbol('&')) && (level == 0
        ==> t != TokenModel::Symbol('|'))
}

/// What stands in a sequence in three parts.
proof fn lemma_at_three(
    s: Seq<TokenModel>,
    pos: nat,
    a: Seq<TokenModel>,
    b: Seq<TokenModel>,
    c: Seq<TokenModel>,
)
    requires
        at(s, pos, a + b + c),
    ensures
        at(s, pos, a),
        at(s, pos + a.len(), b),
        at(s, pos + a.len() + b.len(), c),
        (a + b + c).len() == a.len() + b.len() + c.len(),
{
    lemma_at_parts(s, pos, a + b, c);
    lemma_at_parts(s, pos, a, b);
}

/// Parameters are read in their order, each with its name and its value: the tokens of a
/// name, an equals sign and a literal for each, and a closing brace behind the last.
pub proof fn law_params_are_read_in_order(
    params: Seq<ParamModel>,
    ctx: ContextModel,
    s: Seq<TokenModel>,
    pos: nat,
)
    requires
        forall|i: int| 0 <= i < params.len() ==> (#[trigger] params[i]).context == ctx,
        at(s, pos, param_tokens(params) + mark('}')),
    ensures
        read_params(s, pos, ctx, Seq::empty()) == Ok::<(Seq<ParamModel>, nat), Text>(
            (params, pos + 3 * params.len()),
        ),
{
    let t = param_tokens(params);
    lemma_at_parts(s, pos, t, mark('}'));
    lemma_at_one(s, pos + t.len(), TokenModel::Symbol('}'));
    assert(params.take(0) =~= Seq::empty());
    lemma_params_from(params, ctx, s, pos, 0);
}

/// The parameters that follow the first `k` are read after them.
proof fn lemma_params_from(
    params: Seq<ParamModel>,
    ctx: ContextModel,
    s: Seq<TokenModel>,
    pos: nat,
    k: nat,
)
    requires
        k <= params.len(),
        forall|i: int| 0 <= i < params.len() ==> (#[trigger] params[i]).context == ctx,
        at(s, pos, param_tokens(params)),
        symbol_at(s, pos + 3 * params.len(), '}'),
    ensures
        read_params(s, pos + 3 * k, ctx, params.take(k as int)) == Ok::<
            (Seq<ParamModel>, nat),
            Text,
        >((params, pos + 3 * params.len())),
    decreases params.len() - k,
{
    let t = param_tokens(params);
    if k == params.len() {
        assert(params.take(k as int) =~= params);
    } else {
        let i = 3 * k as int;
        assert(t[i] == TokenModel::Word(params[k as int].name));
        assert(t[i + 1] == TokenModel::Symbol('='));
        assert(t[i + 2] == TokenModel::Literal(params[k as int].value));
        assert(s[pos + i] == t[i]);
        assert(s[pos + (i + 1)] == t[i + 1]);
        assert(s[pos + (i + 2)] == t[i + 2]);
        let param = params[k as int];
        assert(param == ParamModel { name: param.name, value: param.value, context: ctx });
        assert(params.take(k as int).push(param) =~= params.take(k as int + 1));
        lemma_params_from(params, ctx, s, pos, k + 1);
        assert(pos + 3 * k + 3 == pos + 3 * (k + 1));
    }
}

/// A pattern that was read at a level is what every level down to a weaker one reads.
proof fn lemma_climb(
    p: PatternModel,
    ctx: ContextModel,
    s: Seq<TokenModel>,
    pos: nat,
    end: nat,
    strong: nat,
    level: nat,
)
    requires
        level <= strong <= 3,
        pos <= end,
        read_level(s, pos, ctx, strong) == Ok::<(PatternModel, nat), Text>((p, end)),
        ends(token_at(s, end), level),
    ensures
        read_level(s, pos, ctx, level) == Ok::<(PatternModel, nat), Text>((p, end)),
    decreases strong,
{
    if level < strong {
        let k = (strong - 1) as nat;
        assert(seq![p].len() == 1 && seq![p][0] == p);
        assert(!symbol_at(s, end, separator(k)));
        assert(read_more(s, end, ctx, k, seq![p]) == Ok::<(PatternModel, nat), Text>((p, end)));
        lemma_climb(p, ctx, s, pos, end, k, level);
    }
}

/// A pattern is written with a token at least.
proof fn lemma_some_tokens(p: PatternModel, level: nat, ctx: ContextModel, sp: Spelling)
    requires
        writable(p, ctx, sp),
    ensures
        tokens(p, level, sp).len() > 0,
        bare_tokens(p, sp).len() > 0,
    decreases p,
{
    match p {
        PatternModel::Group(values) => {
            lemma_some_operands(values, 2, ctx, sp, values.len());
        },
        PatternModel::Interleave(values) => {
            lemma_some_operands(values, 1, ctx, sp, values.len());
        },
        PatternModel::Choice(values) => {
            lemma_some_operands(values, 0, ctx, sp, values.len());
        },
        _ => {},
    }
}

/// Operands are written with a token at least.
proof fn lemma_some_operands(
    values: Seq<PatternModel>,
    level: nat,
    ctx: ContextModel,
    sp: Spelling,
    n: nat,
)
    requires
        0 < n <= values.len(),
        all_writable(values, ctx, sp),
    ensures
        operand_tokens(values, level, sp, n).len() > 0,
    decreases values,
{
    if n == 1 {
        assert(writable(values[0], ctx, sp));
        lemma_some_tokens(values[0], level + 1, ctx, sp);
    }
}

/// The first operands stand where all do.
proof fn lemma_at_operands(
    values: Seq<PatternModel>,
    level: nat,
    sp: Spelling,
    i: nat,
    n: nat,
    s: Seq<TokenModel>,
    pos: nat,
)
    requires
        0 < i <= n <= values.len(),
        at(s, pos, operand_tokens(values, level, sp, n)),
    ensures
        at(s, pos, operand_tokens(values, level, sp, i)),
    decreases n,
{
    if i < n {
        let k = (n - 1) as nat;
        let front = operand_tokens(values, level, sp, k);
        lemma_at_three(
            s,
            pos,
            front,
            mark(operator(level)),
            tokens(values[n - 1], level + 1, sp),
        );
        lemma_at_operands(values, level, sp, i, k, s, pos);
    }
}

/// What stands at the operand behind the first `k`: the operator, and the operand.
proof fn lemma_at_operand(
    values: Seq<PatternModel>,
    level: nat,
    sp: Spelling,
    k: nat,
    s: Seq<TokenModel>,
    pos: nat,
)
    requires
        0 < k < values.len(),
        at(s, pos, operand_tokens(values, level, sp, values.len())),
    ensures
        ({
            let here = pos + operand_tokens(values, level, sp, k).len();
            let next = tokens(values[k as int], level + 1, sp);
            symbol_at(s, here, separator(level)) && at(s, here + 1, next) && here + 1 + next.len()
                == pos + operand_tokens(values, level, sp, k + 1).len()
        }),
{
    let front = operand_tokens(values, level, sp, k);
    let next = tokens(values[k as int], level + 1, sp);
    lemma_at_operands(values, level, sp, k + 1, values.len(), s, pos);
    assert(operand_tokens(values, level, sp, k + 1) == front + mark(operator(level)) + next);
    lemma_at_three(s, pos, front, mark(operator(level)), next);
    lemma_at_one(s, pos + front.len(), TokenModel::Symbol(operator(level)));
}

/// The operands that follow the first `k` are read after them.
proof fn lemma_read_operands(
    values: Seq<PatternModel>,
    level: nat,
    ctx: ContextModel,
    sp: Spelling,
    s: Seq<TokenModel>,
    pos: nat,
    k: nat,
)
    requires
        level <= 2,
        1 <= k <= values.len(),
        values.len() >= 2,
        all_writable(values, ctx, sp),
        at(s, pos, operand_tokens(values, level, sp, values.len())),
        ends(token_at(s, pos + operand_tokens(values, level, sp, values.len()).len()), level),
    ensures
        read_more(
            s,
            pos + operand_tokens(values, level, sp, k).len(),
            ctx,
            level,
            values.take(k as int),
        ) == Ok::<(PatternModel, nat), Text>(
            (
                joined(level, values),
                pos + operand_tokens(values, level, sp, values.len()).len(),
            ),
        ),
    decreases values, 0nat, values.len() - k,
{
    let n = values.len();
    let here = pos + operand_tokens(values, level, sp, k).len();
    if k == n {
        assert(values.take(n as int) =~= values);
    } else {
        lemma_at_operand(values, level, sp, k, s, pos);
        if k + 1 < n {
            lemma_at_operand(values, level, sp, k + 1, s, pos);
        }
        assert(writable(values[k as int], ctx, sp));
        lemma_read_pattern(values[k as int], level + 1, ctx, sp, s, here + 1);
        lemma_read_operands(values, level, ctx, sp, s, pos, k + 1);
        assert(values.take(k as int).push(values[k as int]) =~= values.take(k as int + 1));
    }
}

/// Operands are read as the pattern of them.
proof fn lemma_read_all(
    values: Seq<PatternModel>,
    level: nat,
    ctx: ContextModel,
    sp: Spelling,
    s: Seq<TokenModel>,
    pos: nat,
)
    requires
        level <= 2,
        values.len() >= 2,
        all_writable(values, ctx, sp),
        at(s, pos, operand_tokens(values, level, sp, values.len())),
        ends(token_at(s, pos + operand_tokens(values, level, sp, values.len()).len()), level),
    ensures
        read_level(s, pos, ctx, level) == Ok::<(PatternModel, nat), Text>(
            (
                joined(level, values),
                pos + operand_tokens(values, level, sp, values.len()).len(),
            ),
        ),
    decreases values, 1nat, 0nat,
{
    assert(writable(values[0], ctx, sp));
    lemma_at_operands(values, level, sp, 1, values.len(), s, pos);
    lemma_at_operand(values, level, sp, 1, s, pos);
    lemma_read_pattern(values[0], level + 1, ctx, sp, s, pos);
    assert(values.take(1) =~= seq![values[0]]);
    lemma_read_operands(values, level, ctx, sp, s, pos, 1);
}

/// The pattern that is read from a pattern with repetition marks, before the marks: the marks
/// that stand behind it make it the pattern, with those that stand behind the pattern.
proof fn lemma_read_marked(
    p: PatternModel,
    ctx: ContextModel,
    sp: Spelling,
    s: Seq<TokenModel>,
    pos: nat,
) -> (first: (PatternModel, nat))
    requires
        writable(p, ctx, sp),
        at(s, pos, tokens(p, 3, sp)),
        parts(token_at(s, pos + tokens(p, 3, sp).len())),
    ensures
        read_primary(s, pos, ctx) == Ok::<(PatternModel, nat), Text>(first),
        with_marks(s, first.1, first.0) == with_marks(s, pos + tokens(p, 3, sp).len(), p),
    decreases p, 4nat, 0nat,
{
    let end = pos + tokens(p, 3, sp).len();
    if strength(p) < 3 {
        let inner = bare_tokens(p, sp);
        lemma_at_three(s, pos, mark('('), inner, mark(')'));
        lemma_at_one(s, pos, TokenModel::Symbol('('));
        lemma_at_one(s, pos + 1 + inner.len(), TokenModel::Symbol(')'));
        assert(tokens(p, 0, sp) == inner);
        lemma_read_pattern(p, 0, ctx, sp, s, pos + 1);
        (p, end)
    } else {
        match p {
            PatternModel::Optional(body) => lemma_read_repeated(p, body, '?', ctx, sp, s, pos),
            PatternModel::ZeroOrMore(body) => lemma_read_repeated(p, body, '*', ctx, sp, s, pos),
            PatternModel::OneOrMore(body) => lemma_read_repeated(p, body, '+', ctx, sp, s, pos),
            _ => {
                lemma_read_primary(p, ctx, sp, s, pos);
                (p, end)
            },
        }
    }
}

/// The mark of a repetition.
pub open spec fn repeated(body: Seq<PatternModel>, c: char) -> PatternModel {
    if c == '?' {
        PatternModel::Optional(body)
    } else if c == '*' {
        PatternModel::ZeroOrMore(body)
    } else {
        PatternModel::OneOrMore(body)
    }
}

/// A pattern with a repetition mark behind it.
proof fn lemma_read_repeated(
    p: PatternModel,
    body: Seq<PatternModel>,
    c: char,
    ctx: ContextModel,
    sp: Spelling,
    s: Seq<TokenModel>,
    pos: nat,
) -> (first: (PatternModel, nat))
    requires
        c == '?' || c == '*' || c == '+',
        p == repeated(body, c),
        body.len() == 1,
        all_writable(body, ctx, sp),
        at(s, pos, operand_tokens(body, 2, sp, 1) + mark(c)),
        parts(token_at(s, pos + operand_tokens(body, 2, sp, 1).len() + 1)),
    ensures
        read_primary(s, pos, ctx) == Ok::<(PatternModel, nat), Text>(first),
        with_marks(s, first.1, first.0) == with_marks(
            s,
            pos + operand_tokens(body, 2, sp, 1).len() + 1,
            p,
        ),
    decreases body, 0nat, 0nat,
{
    let inner = operand_tokens(body, 2, sp, 1);
    lemma_at_parts(s, pos, inner, mark(c));
    lemma_at_one(s, pos + inner.len(), TokenModel::Symbol(c));
    assert(inner == tokens(body[0], 3, sp));
    assert(writable(body[0], ctx, sp));
    let first = lemma_read_marked(body[0], ctx, sp, s, pos);
    assert(body =~= seq![body[0]]);
    first
}

/// A pattern is read from the tokens that it is written as.
#[verifier::rlimit(40)]
proof fn lemma_read_pattern(
    p: PatternModel,
    level: nat,
    ctx: ContextModel,
    sp: Spelling,
    s: Seq<TokenModel>,
    pos: nat,
)
    requires
        level <= 3,
        writable(p, ctx, sp),
        at(s, pos, tokens(p, level, sp)),
        ends(token_at(s, pos + tokens(p, level, sp).len()), level),
    ensures
        read_level(s, pos, ctx, level) == Ok::<(PatternModel, nat), Text>(
            (p, pos + tokens(p, level, sp).len()),
        ),
        tokens(p, level, sp).len() > 0,
    decreases
            p,
            if strength(p) < level || strength(p) >= 3 {
                5nat
            } else {
                3nat
            },
            0nat,
{
    lemma_some_tokens(p, level, ctx, sp);
    let end = pos + tokens(p, level, sp).len();
    if strength(p) < level || strength(p) >= 3 {
        assert(tokens(p, level, sp) == tokens(p, 3, sp));
        let first = lemma_read_marked(p, ctx, sp, s, pos);
        assert(with_marks(s, end, p) == (p, end));
        assert(read_postfix(s, pos, ctx) == Ok::<(PatternModel, nat), Text>((p, end)));
        assert(read_level(s, pos, ctx, 3) == Ok::<(PatternModel, nat), Text>((p, end)));
        lemma_climb(p, ctx, s, pos, end, 3, level);
    } else {
        match p {
            PatternModel::Choice(values) => {
                lemma_read_all(values, 0, ctx, sp, s, pos);
            },
            PatternModel::Interleave(values) => {
                lemma_read_all(values, 1, ctx, sp, s, pos);
                lemma_climb(p, ctx, s, pos, end, 1, level);
            },
            PatternModel::Group(values) => {
                lemma_read_all(values, 2, ctx, sp, s, pos);
                lemma_climb(p, ctx, s, pos, end, 2, level);
            },
            _ => {
                lemma_read_data(p, ctx, sp, s, pos);
                assert(with_marks(s, end, p) == (p, end));
                assert(read_postfix(s, pos, ctx) == Ok::<(PatternModel, nat), Text>((p, end)));
                assert(read_level(s, pos, ctx, 3) == Ok::<(PatternModel, nat), Text>((p, end)));
                lemma_climb(p, ctx, s, pos, end, 3, level);
            },
        }
    }
}

/// A datatype that a word spells is read from it.
proof fn lemma_spelled_datatype(w: Text, datatype: Text, library: Option<Text>, ctx: ContextModel)
    requires
        spells_datatype(w, datatype, library, ctx),
    ensures
        datatype_of(w, ctx) == (datatype, library),
        occurs(w, ':') <==> w.contains(':'),
        !w.contains(':') ==> w == datatype && library == Some(Seq::<char>::empty()),
{
    lemma_occurs(w, ':');
    if w == datatype && !w.contains(':') && library == Some(Seq::<char>::empty()) {
    } else {
        let prefix = choose|prefix: Text|
            w == #[trigger] (prefix + seq![':'] + datatype) && !prefix.contains(':') && lookup(
                ctx.namespaces,
                prefix,
            ) == Some(library->0);
        lemma_split(prefix, datatype);
    }
}

/// A word that is no keyword starts what is read by its name.
proof fn lemma_read_word(w: Text, ctx: ContextModel, s: Seq<TokenModel>, pos: nat)
    requires
        token_at(s, pos) == TokenModel::Word(w),
        !keyword(w),
    ensures
        read_primary(s, pos, ctx) == read_named(s, pos + 1, ctx, w),
{
}

/// A datatype with its parameters and its exception is read from the tokens that it is
/// written as.
#[verifier::rlimit(40)]
proof fn lemma_read_data(
    p: PatternModel,
    ctx: ContextModel,
    sp: Spelling,
    s: Seq<TokenModel>,
    pos: nat,
)
    requires
        p is Data,
        writable(p, ctx, sp),
        at(s, pos, bare_tokens(p, sp)),
        parts(token_at(s, pos + bare_tokens(p, sp).len())),
        strength(p) == 0 ==> ends(token_at(s, pos + bare_tokens(p, sp).len()), 0),
    ensures
        read_primary(s, pos, ctx) == Ok::<(PatternModel, nat), Text>(
            (p, pos + bare_tokens(p, sp).len()),
        ),
    decreases p, 0nat, 0nat,
{
    match p {
        PatternModel::Data { datatype, datatype_library, params, except, context } => {
            let w = (sp.datatype)(datatype, datatype_library);
            lemma_spelled_datatype(w, datatype, datatype_library, ctx);
            if name_suffices(w, params, except) {
                lemma_at_one(s, pos, TokenModel::Word(w));
                lemma_read_word(w, ctx, s, pos);
                assert(params =~= Seq::<ParamModel>::empty());
                assert(except =~= Seq::<PatternModel>::empty());
            } else {
                let t = param_tokens(params);
                let rest = exception_tokens(except, sp);
                let front = term(w) + mark('{') + t;
                lemma_at_three(s, pos, front, mark('}'), rest);
                lemma_at_three(s, pos, term(w), mark('{'), t);
                lemma_at_one(s, pos, TokenModel::Word(w));
                lemma_at_one(s, pos + 1, TokenModel::Symbol('{'));
                let brace = pos + 2 + t.len();
                lemma_at_one(s, brace, TokenModel::Symbol('}'));
                lemma_read_word(w, ctx, s, pos);
                assert(params.take(0) =~= Seq::<ParamModel>::empty());
                lemma_params_from(params, ctx, s, pos + 2, 0);
                if except.len() == 0 {
                    assert(except =~= Seq::<PatternModel>::empty());
                } else {
                    let inner = tokens(except[0], 0, sp);
                    lemma_at_parts(s, brace + 1, mark('-'), inner);
                    lemma_at_one(s, brace + 1, TokenModel::Symbol('-'));
                    assert(writable(except[0], ctx, sp));
                    lemma_read_pattern(except[0], 0, ctx, sp, s, brace + 2);
                    assert(except =~= seq![except[0]]);
                }
            }
        },
        _ => {},
    }
}

/// A pattern in braces is read from the tokens that it is written as.
proof fn lemma_read_braced(
    body: Seq<PatternModel>,
    ctx: ContextModel,
    sp: Spelling,
    s: Seq<TokenModel>,
    pos: nat,
)
    requires
        body.len() == 1,
        all_writable(body, ctx, sp),
        at(s, pos, braced_tokens(body, sp)),
    ensures
        read_braced(s, pos, ctx) == Ok::<(PatternModel, nat), Text>(
            (body[0], pos + braced_tokens(body, sp).len()),
        ),
        body == seq![body[0]],
        token_at(s, pos) == TokenModel::Symbol('{'),
    decreases body, 0nat, 0nat,
{
    let inner = tokens(body[0], 0, sp);
    lemma_at_three(s, pos, mark('{'), inner, mark('}'));
    lemma_at_one(s, pos, TokenModel::Symbol('{'));
    lemma_at_one(s, pos + 1 + inner.len(), TokenModel::Symbol('}'));
    assert(writable(body[0], ctx, sp));
    lemma_read_pattern(body[0], 0, ctx, sp, s, pos + 1);
    assert(body =~= seq![body[0]]);
}

/// A reference to another schema is read from the tokens that it is written as.
proof fn lemma_read_reference(
    word: Text,
    href: Text,
    inherit_namespace: Option<Text>,
    context: ContextModel,
    ctx: ContextModel,
    sp: Spelling,
    s: Seq<TokenModel>,
    pos: nat,
)
    requires
        refers(inherit_namespace, context, ctx, sp),
        at(s, pos, term(word) + quoted(href) + inherit_tokens(inherit_namespace, sp)),
        token_at(s, pos + 2 + inherit_tokens(inherit_namespace, sp).len()) != TokenModel::Word(
            "inherit"@,
        ),
    ensures
        read_reference(s, pos, ctx, word) == Ok::<((Text, Option<Text>), nat), Text>(
            ((href, inherit_namespace), pos + 2 + inherit_tokens(inherit_namespace, sp).len()),
        ),
        referring(ctx, inherit_namespace) == context,
        token_at(s, pos) == TokenModel::Word(word),
{
    let rest = inherit_tokens(inherit_namespace, sp);
    lemma_at_three(s, pos, term(word), quoted(href), rest);
    lemma_at_one(s, pos, TokenModel::Word(word));
    lemma_at_one(s, pos + 1, TokenModel::Literal(href));
    match inherit_namespace {
        Some(uri) => {
            let prefix = (sp.prefix)(uri);
            lemma_at_three(s, pos + 2, term("inherit"@), mark('='), term(prefix));
            lemma_at_one(s, pos + 2, TokenModel::Word("inherit"@));
            lemma_at_one(s, pos + 3, TokenModel::Symbol('='));
            lemma_at_one(s, pos + 4, TokenModel::Word(prefix));
        },
        None => {},
    }
}

/// A pattern without operators is read from the tokens that it is written as.
#[verifier::rlimit(40)]
proof fn lemma_read_primary(
    p: PatternModel,
    ctx: ContextModel,
    sp: Spelling,
    s: Seq<TokenModel>,
    pos: nat,
)
    requires
        strength(p) == 4,
        writable(p, ctx, sp),
        at(s, pos, bare_tokens(p, sp)),
        parts(token_at(s, pos + bare_tokens(p, sp).len())),
    ensures
        read_primary(s, pos, ctx) == Ok::<(PatternModel, nat), Text>(
            (p, pos + bare_tokens(p, sp).len()),
        ),
    decreases p, 1nat, 0nat,
{
    lemma_keywords();
    match p {
        PatternModel::Element { name, body, context } => {
            let n = name_tokens(name, false, false, sp);
            lemma_at_three(s, pos, term("element"@), n, braced_tokens(body, sp));
            lemma_at_one(s, pos, TokenModel::Word("element"@));
            lemma_read_braced(body, ctx, sp, s, pos + 1 + n.len());
            lemma_read_name(name, false, ctx, sp, s, pos + 1);
        },
        PatternModel::Attribute { name, body, context } => {
            let n = name_tokens(name, true, false, sp);
            lemma_at_three(s, pos, term("attribute"@), n, braced_tokens(body, sp));
            lemma_at_one(s, pos, TokenModel::Word("attribute"@));
            lemma_read_braced(body, ctx, sp, s, pos + 1 + n.len());
            lemma_read_name(name, true, ctx, sp, s, pos + 1);
        },
        PatternModel::List(body) => {
            lemma_at_parts(s, pos, term("list"@), braced_tokens(body, sp));
            lemma_at_one(s, pos, TokenModel::Word("list"@));
            lemma_read_braced(body, ctx, sp, s, pos + 1);
        },
        PatternModel::Mixed(body) => {
            lemma_at_parts(s, pos, term("mixed"@), braced_tokens(body, sp));
            lemma_at_one(s, pos, TokenModel::Word("mixed"@));
            lemma_read_braced(body, ctx, sp, s, pos + 1);
        },
        PatternModel::Empty => {
            lemma_at_one(s, pos, TokenModel::Word("empty"@));
        },
        PatternModel::NotAllowed => {
            lemma_at_one(s, pos, TokenModel::Word("notAllowed"@));
        },
        PatternModel::Text => {
            lemma_at_one(s, pos, TokenModel::Word("text"@));
        },
        PatternModel::Data { datatype, datatype_library, params, except, context } => {
            lemma_read_data(p, ctx, sp, s, pos);
        },
        PatternModel::Value { value, datatype, datatype_library, namespace, context } => {
            match datatype {
                Some(local) => {
                    let w = (sp.datatype)(local, datatype_library);
                    lemma_at_parts(s, pos, term(w), quoted(value));
                    lemma_at_one(s, pos, TokenModel::Word(w));
                    lemma_at_one(s, pos + 1, TokenModel::Literal(value));
                    lemma_spelled_datatype(w, local, datatype_library, ctx);
                    lemma_read_word(w, ctx, s, pos);
                },
                None => {
                    lemma_at_one(s, pos, TokenModel::Literal(value));
                },
            }
        },
        PatternModel::Ref(name) => {
            lemma_at_one(s, pos, TokenModel::Word(name));
            lemma_occurs(name, ':');
            lemma_read_word(name, ctx, s, pos);
        },
        PatternModel::ParentRef(name) => {
            lemma_at_parts(s, pos, term("parent"@), term(name));
            lemma_at_one(s, pos, TokenModel::Word("parent"@));
            lemma_at_one(s, pos + 1, TokenModel::Word(name));
        },
        PatternModel::ExternalRef { href, inherit_namespace, context } => {
            lemma_read_reference(
                "external"@,
                href,
                inherit_namespace,
                context,
                ctx,
                sp,
                s,
                pos,
            );
        },
        PatternModel::Grammar(grammar) => {
            lemma_at_parts(s, pos, term("grammar"@), grammar_tokens(grammar, sp));
            lemma_at_one(s, pos, TokenModel::Word("grammar"@));
            lemma_read_grammar(grammar, ctx, sp, s, pos + 1);
        },
        _ => {},
    }
}

/// A grammar is read from the tokens that it is written as.
proof fn lemma_read_grammar(
    grammar: GrammarModel,
    ctx: ContextModel,
    sp: Spelling,
    s: Seq<TokenModel>,
    pos: nat,
)
    requires
        grammar_writable(grammar, ctx, sp),
        at(s, pos, grammar_tokens(grammar, sp)),
    ensures
        read_grammar(s, pos, ctx) == Ok::<(GrammarModel, nat), Text>(
            (grammar, pos + grammar_tokens(grammar, sp).len()),
        ),
    decreases grammar, 0nat, 0nat,
{
    lemma_read_braced_items(grammar.items, ctx, sp, s, pos);
}

/// Grammar components in braces are read from the tokens that they are written as.
proof fn lemma_read_braced_items(
    items: Seq<ItemModel>,
    ctx: ContextModel,
    sp: Spelling,
    s: Seq<TokenModel>,
    pos: nat,
)
    requires
        items_writable(items, ctx, sp),
        at(s, pos, mark('{') + item_tokens(items, sp, items.len()) + mark('}')),
    ensures
        read_braced_items(s, pos, ctx) == Ok::<(Seq<ItemModel>, nat), Text>(
            (items, pos + 2 + item_tokens(items, sp, items.len()).len()),
        ),
        token_at(s, pos) == TokenModel::Symbol('{'),
    decreases items, 1nat, 0nat,
{
    let inner = item_tokens(items, sp, items.len());
    lemma_at_three(s, pos, mark('{'), inner, mark('}'));
    lemma_at_one(s, pos, TokenModel::Symbol('{'));
    lemma_at_one(s, pos + 1 + inner.len(), TokenModel::Symbol('}'));
    assert(items.take(0) =~= Seq::<ItemModel>::empty());
    lemma_read_items(items, true, ctx, sp, s, pos + 1, 0);
}

/// The first components stand where all do.
proof fn lemma_at_items(
    items: Seq<ItemModel>,
    sp: Spelling,
    i: nat,
    n: nat,
    s: Seq<TokenModel>,
    pos: nat,
)
    requires
        i <= n <= items.len(),
        at(s, pos, item_tokens(items, sp, n)),
    ensures
        at(s, pos, item_tokens(items, sp, i)),
    decreases n,
{
    if i < n {
        let k = (n - 1) as nat;
        lemma_at_parts(s, pos, item_tokens(items, sp, k), one_item_tokens(items[n - 1], sp));
        lemma_at_items(items, sp, i, k, s, pos);
    }
}

/// What stands behind the first `k` components: the next one.
proof fn lemma_at_item(
    items: Seq<ItemModel>,
    sp: Spelling,
    k: nat,
    s: Seq<TokenModel>,
    pos: nat,
)
    requires
        k < items.len(),
        at(s, pos, item_tokens(items, sp, items.len())),
    ensures
        at(s, pos + item_tokens(items, sp, k).len(), one_item_tokens(items[k as int], sp)),
        item_tokens(items, sp, k).len() + one_item_tokens(items[k as int], sp).len()
            == item_tokens(items, sp, k + 1).len(),
{
    let front = item_tokens(items, sp, k);
    let next = one_item_tokens(items[k as int], sp);
    lemma_at_items(items, sp, k + 1, items.len(), s, pos);
    assert(item_tokens(items, sp, k + 1) == front + next);
    lemma_at_parts(s, pos, front, next);
}

/// A component starts with a word that goes on with no pattern.
proof fn lemma_item_starts(
    item: ItemModel,
    ctx: ContextModel,
    sp: Spelling,
    s: Seq<TokenModel>,
    pos: nat,
)
    requires
        item_writable(item, ctx, sp),
        at(s, pos, one_item_tokens(item, sp)),
    ensures
        token_at(s, pos) is Word,
        ends(token_at(s, pos), 0),
        one_item_tokens(item, sp).len() > 0,
{
    lemma_keywords();
    let t = one_item_tokens(item, sp);
    assert(t.len() > 0 && t[0] is Word && t[0] != TokenModel::Word("inherit"@));
    assert(s[pos as int] == t[0]);
}

/// The components that follow the first `k` are read after them.
proof fn lemma_read_items(
    items: Seq<ItemModel>,
    braces: bool,
    ctx: ContextModel,
    sp: Spelling,
    s: Seq<TokenModel>,
    pos: nat,
    k: nat,
)
    requires
        k <= items.len(),
        items_writable(items, ctx, sp),
        at(s, pos, item_tokens(items, sp, items.len())),
        token_at(s, pos + item_tokens(items, sp, items.len()).len()) == (if braces {
            TokenModel::Symbol('}')
        } else {
            TokenModel::End
        }),
    ensures
        read_items(
            s,
            pos + item_tokens(items, sp, k).len(),
            ctx,
            braces,
            items.take(k as int),
        ) == Ok::<(Seq<ItemModel>, nat), Text>(
            (items, pos + item_tokens(items, sp, items.len()).len()),
        ),
    decreases items, 0nat, items.len() - k,
{
    let n = items.len();
    let here = pos + item_tokens(items, sp, k).len();
    if k == n {
        assert(items.take(n as int) =~= items);
    } else {
        let item = items[k as int];
        lemma_at_item(items, sp, k, s, pos);
        assert(item_writable(item, ctx, sp));
        lemma_item_starts(item, ctx, sp, s, here);
        if k + 1 < n {
            lemma_at_item(items, sp, k + 1, s, pos);
            assert(item_writable(items[k as int + 1], ctx, sp));
            lemma_item_starts(
                items[k as int + 1],
                ctx,
                sp,
                s,
                here + one_item_tokens(item, sp).len(),
            );
        }
        lemma_read_item(item, ctx, sp, s, here);
        lemma_read_items(items, braces, ctx, sp, s, pos, k + 1);
        assert(items.take(k as int).push(item) =~= items.take(k as int + 1));
    }
}

/// A component is read from the tokens that it is written as.
#[verifier::rlimit(40)]
proof fn lemma_read_item(
    item: ItemModel,
    ctx: ContextModel,
    sp: Spelling,
    s: Seq<TokenModel>,
    pos: nat,
)
    requires
        item_writable(item, ctx, sp),
        at(s, pos, one_item_tokens(item, sp)),
        ends(token_at(s, pos + one_item_tokens(item, sp).len()), 0),
    ensures
        read_item(s, pos, ctx) == Ok::<(ItemModel, nat), Text>(
            (item, pos + one_item_tokens(item, sp).len()),
        ),
    decreases item, 0nat, 0nat,
{
    lemma_keywords();
    match item {
        ItemModel::Start { combine, body } => {
            lemma_read_definition("start"@, combine, body, ctx, sp, s, pos);
        },
        ItemModel::Define { name, combine, body } => {
            lemma_read_definition(name, combine, body, ctx, sp, s, pos);
        },
        ItemModel::Div(items) => {
            let t = item_tokens(items, sp, items.len());
            assert(term("div"@) + mark('{') + t + mark('}') =~= term("div"@) + (mark('{') + t
                + mark('}')));
            lemma_at_parts(s, pos, term("div"@), mark('{') + t + mark('}'));
            lemma_at_one(s, pos, TokenModel::Word("div"@));
            lemma_read_braced_items(items, ctx, sp, s, pos + 1);
        },
        ItemModel::Include { href, inherit_namespace, body, context } => {
            lemma_read_inclusion(item, href, inherit_namespace, body, context, ctx, sp, s, pos);
        },
    }
}

/// The inclusion of another grammar is read from the tokens that it is written as.
proof fn lemma_read_inclusion(
    item: ItemModel,
    href: Text,
    inherit_namespace: Option<Text>,
    body: Seq<ItemModel>,
    context: ContextModel,
    ctx: ContextModel,
    sp: Spelling,
    s: Seq<TokenModel>,
    pos: nat,
)
    requires
        item == (ItemModel::Include { href, inherit_namespace, body, context }),
        refers(inherit_namespace, context, ctx, sp),
        items_writable(body, ctx, sp),
        at(s, pos, one_item_tokens(item, sp)),
        ends(token_at(s, pos + one_item_tokens(item, sp).len()), 0),
    ensures
        read_item(s, pos, ctx) == Ok::<(ItemModel, nat), Text>(
            (item, pos + one_item_tokens(item, sp).len()),
        ),
    decreases body, 2nat, 0nat,
{
    lemma_keywords();
    let front = term("include"@) + quoted(href) + inherit_tokens(inherit_namespace, sp);
    let word = "include"@;
    if body.len() == 0 {
        lemma_read_reference(word, href, inherit_namespace, context, ctx, sp, s, pos);
        assert(body =~= Seq::<ItemModel>::empty());
    } else {
        let t = item_tokens(body, sp, body.len());
        let rest = mark('{') + t + mark('}');
        assert(front + mark('{') + t + mark('}') =~= front + rest);
        lemma_at_parts(s, pos, front, rest);
        lemma_read_braced_items(body, ctx, sp, s, pos + front.len());
        lemma_read_reference(word, href, inherit_namespace, context, ctx, sp, s, pos);
    }
}

/// A definition is read from the tokens that it is written as.
proof fn lemma_read_definition(
    name: Text,
    combine: Option<Combine>,
    body: Seq<PatternModel>,
    ctx: ContextModel,
    sp: Spelling,
    s: Seq<TokenModel>,
    pos: nat,
)
    requires
        body.len() == 1,
        all_writable(body, ctx, sp),
        at(s, pos, term(name) + combine_tokens(combine) + defined_tokens(body, sp)),
        ends(
            token_at(
                s,
                pos + 1 + combine_tokens(combine).len() + defined_tokens(body, sp).len(),
            ),
            0,
        ),
    ensures
        token_at(s, pos) == TokenModel::Word(name),
        read_definition(s, pos, ctx) == Ok::<(ItemModel, nat), Text>(
            (
                if name == "start"@ {
                    ItemModel::Start { combine, body }
                } else {
                    ItemModel::Define { name, combine, body }
                },
                pos + 1 + combine_tokens(combine).len() + defined_tokens(body, sp).len(),
            ),
        ),
    decreases body, 0nat, 0nat,
{
    let sign = combine_tokens(combine);
    let inner = tokens(body[0], 0, sp);
    lemma_at_three(s, pos, term(name), sign, inner);
    lemma_at_one(s, pos, TokenModel::Word(name));
    match combine {
        Some(Combine::Choice) => {
            lemma_at_parts(s, pos + 1, mark('|'), mark('='));
            lemma_at_one(s, pos + 1, TokenModel::Symbol('|'));
            lemma_at_one(s, pos + 2, TokenModel::Symbol('='));
        },
        Some(Combine::Interleave) => {
            lemma_at_parts(s, pos + 1, mark('&'), mark('='));
            lemma_at_one(s, pos + 1, TokenModel::Symbol('&'));
            lemma_at_one(s, pos + 2, TokenModel::Symbol('='));
        },
        None => {
            lemma_at_one(s, pos + 1, TokenModel::Symbol('='));
        },
    }
    assert(read_combine(s, pos + 1) == Ok::<(Option<Combine>, nat), Text>(
        (combine, pos + 1 + sign.len()),
    ));
    assert(writable(body[0], ctx, sp));
    lemma_read_pattern(body[0], 0, ctx, sp, s, pos + 1 + sign.len());
    assert(body =~= seq![body[0]]);
}

// ---------------------------------------------------------------------
// Laws
// ---------------------------------------------------------------------

/// Reading the tokens that a pattern is written as gives that pattern back, wherever they
/// stand with nothing behind them that goes on with it.
pub proof fn law_patterns_are_read_back(
    p: PatternModel,
    ctx: ContextModel,
    sp: Spelling,
    s: Seq<TokenModel>,
    pos: nat,
)
    requires
        writable(p, ctx, sp),
        at(s, pos, tokens(p, 0, sp)),
        ends(token_at(s, pos + tokens(p, 0, sp).len()), 0),
    ensures
        read_level(s, pos, ctx, 0) == Ok::<(PatternModel, nat), Text>(
            (p, pos + tokens(p, 0, sp).len()),
        ),
{
    lemma_read_pattern(p, 0, ctx, sp, s, pos);
}

/// Reading the tokens that a name class is written as gives that name class back.
pub proof fn law_name_classes_are_read_back(
    n: NameModel,
    is_attribute: bool,
    ctx: ContextModel,
    sp: Spelling,
    s: Seq<TokenModel>,
    pos: nat,
)
    requires
        name_writable(n, is_attribute, ctx, sp),
        at(s, pos, name_tokens(n, is_attribute, false, sp)),
        ends_name(token_at(s, pos + name_tokens(n, is_attribute, false, sp).len()), false),
    ensures
        read_name_class(s, pos, ctx, is_attribute) == Ok::<(NameModel, nat), Text>(
            (n, pos + name_tokens(n, is_attribute, false, sp).len()),
        ),
{
    lemma_read_name(n, is_attribute, ctx, sp, s, pos);
}

/// A declaration of a prefix binds that prefix and leaves the others as they are; one of the
/// default namespace sets it, and the namespace that other schemas inherit. Either leaves the
/// rest of the context, and what follows it is read in the new one.
pub proof fn law_declarations_are_read(
    word: Text,
    prefix: Text,
    uri: Text,
    ctx: ContextModel,
    s: Seq<TokenModel>,
    pos: nat,
) -> (declared: ContextModel)
    requires
        word == "namespace"@ || word == "datatypes"@ || word == "default"@,
        at(
            s,
            pos,
            if word == "default"@ {
                term("default"@) + term("namespace"@) + (mark('=') + quoted(uri))
            } else {
                term(word) + term(prefix) + (mark('=') + quoted(uri))
            },
        ),
        token_at(s, pos + 4) != TokenModel::Symbol('['),
    ensures
        read_declarations(s, pos, ctx) == read_declarations(s, pos + 4, declared),
        declared.base_uri == ctx.base_uri,
        declared.datatype_library == ctx.datatype_library,
        word == "default"@ ==> declared.default_namespace == Some(uri) && declared.ns == Some(uri)
            && declared.namespaces == ctx.namespaces,
        word != "default"@ ==> declared.default_namespace == ctx.default_namespace && declared.ns
            == ctx.ns && lookup(declared.namespaces, prefix) == Some(uri),
        word != "default"@ ==> forall|other: Text|
            other != prefix ==> #[trigger] lookup(declared.namespaces, other) == lookup(
                ctx.namespaces,
                other,
            ),
{
    reveal_strlit("default");
    reveal_strlit("namespace");
    reveal_strlit("datatypes");
    assert("default"@.len() == 7);
    assert("namespace"@.len() == 9);
    assert("datatypes"@.len() == 9);
    let sign = mark('=') + quoted(uri);
    if word == "default"@ {
        lemma_at_three(s, pos, term("default"@), term("namespace"@), sign);
        lemma_at_one(s, pos, TokenModel::Word("default"@));
        lemma_at_one(s, pos + 1, TokenModel::Word("namespace"@));
    } else {
        lemma_at_three(s, pos, term(word), term(prefix), sign);
        lemma_at_one(s, pos, TokenModel::Word(word));
        lemma_at_one(s, pos + 1, TokenModel::Word(prefix));
    }
    lemma_at_parts(s, pos + 2, mark('='), quoted(uri));
    lemma_at_one(s, pos + 2, TokenModel::Symbol('='));
    lemma_at_one(s, pos + 3, TokenModel::Literal(uri));
    if word == "default"@ {
        ContextModel { default_namespace: Some(uri), ns: Some(uri), ..ctx }
    } else {
        let namespaces = inserted(ctx.namespaces, prefix, uri);
        assert forall|other: Text| other != prefix implies #[trigger] lookup(namespaces, other)
            == lookup(ctx.namespaces, other) by {
            lemma_inserted_lookup(ctx.namespaces, prefix, uri, other);
        }
        lemma_inserted_lookup(ctx.namespaces, prefix, uri, prefix);
        ContextModel { namespaces, ..ctx }
    }
}

/// Whether a word starts a declaration.
pub open spec fn declares(w: Text) -> bool {
    w == "namespace"@ || w == "datatypes"@ || w == "default"@
}

/// A schema as it is written: the components of a grammar, or an element pattern.
pub open spec fn root_tokens(root: RootModel, sp: Spelling) -> Seq<TokenModel> {
    match root {
        RootModel::Grammar(grammar) => item_tokens(grammar.items, sp, grammar.items.len()),
        RootModel::Pattern(p) => tokens(p, 0, sp),
    }
}

/// Whether a schema can be written so: its grammar has a component, and the first one is not
/// taken for a declaration or for a grammar in braces; its pattern is an element.
pub open spec fn root_writable(root: RootModel, ctx: ContextModel, sp: Spelling) -> bool {
    match root {
        RootModel::Grammar(grammar) => grammar_writable(grammar, ctx, sp) && grammar.items.len() > 0
            && (grammar.items[0] matches ItemModel::Define { name, combine, body } ==> !declares(
            name,
        ) && name != "grammar"@),
        RootModel::Pattern(p) => writable(p, ctx, sp) && p is Element,
    }
}

/// Reading the tokens that a schema is written as gives that schema back.
pub proof fn law_schemas_are_read_back(root: RootModel, ctx: ContextModel, sp: Spelling)
    requires
        root_writable(root, ctx, sp),
    ensures
        read_schema(root_tokens(root, sp).push(TokenModel::End), ctx) == Ok::<RootModel, Text>(
            root,
        ),
{
    let t = root_tokens(root, sp);
    let s = t.push(TokenModel::End);
    assert(at(t, 0, t));
    match root {
        RootModel::Grammar(grammar) => {
            lemma_at_item(grammar.items, sp, 0, t, 0);
            assert(item_writable(grammar.items[0], ctx, sp));
            lemma_item_starts(grammar.items[0], ctx, sp, t, 0);
        },
        RootModel::Pattern(p) => {
            lemma_some_tokens(p, 0, ctx, sp);
            assert(t[0] == TokenModel::Word("element"@));
        },
    }
    law_schemas_follow_their_declarations(root, ctx, ctx, sp, s, 0);
}

/// A schema behind its declarations is read in the context that they declare.
pub proof fn law_schemas_follow_their_declarations(
    root: RootModel,
    ctx: ContextModel,
    declared: ContextModel,
    sp: Spelling,
    s: Seq<TokenModel>,
    start: nat,
)
    requires
        root_writable(root, declared, sp),
        at(s, start, root_tokens(root, sp)),
        token_at(s, start + root_tokens(root, sp).len()) is End,
        token_at(s, 0) != TokenModel::Symbol('['),
        read_declarations(s, 0, ctx) == read_declarations(s, start, declared),
    ensures
        read_schema(s, ctx) == Ok::<RootModel, Text>(root),
{
    reveal_strlit("default");
    reveal_strlit("namespace");
    reveal_strlit("datatypes");
    reveal_strlit("element");
    reveal_strlit("grammar");
    reveal_strlit("div");
    reveal_strlit("include");
    reveal_strlit("start");
    assert("default"@.len() == 7 && "default"@[0] == 'd');
    assert("namespace"@.len() == 9);
    assert("datatypes"@.len() == 9);
    assert("element"@.len() == 7 && "element"@[0] == 'e');
    assert("grammar"@.len() == 7 && "grammar"@[0] == 'g');
    assert("div"@.len() == 3);
    assert("include"@.len() == 7 && "include"@[0] == 'i');
    assert("start"@.len() == 5);
    let t = root_tokens(root, sp);
    match root {
        RootModel::Grammar(grammar) => {
            let items = grammar.items;
            lemma_at_item(items, sp, 0, s, start);
            assert(item_writable(items[0], declared, sp));
            lemma_item_starts(items[0], declared, sp, s, start);
            let first = one_item_tokens(items[0], sp);
            assert(first.len() >= 2);
            assert(s[start as int] == first[0]);
            assert(s[start as int + 1] == first[1]);
            assert(items.take(0) =~= Seq::<ItemModel>::empty());
            lemma_read_items(items, false, declared, sp, s, start, 0);
        },
        RootModel::Pattern(p) => {
            lemma_some_tokens(p, 0, declared, sp);
            assert(t[0] == TokenModel::Word("element"@));
            assert(s[start as int] == t[0]);
            match p {
                PatternModel::Element { name, body, context } => {
                    let n = name_tokens(name, false, false, sp);
                    lemma_at_three(s, start, term("element"@), n, braced_tokens(body, sp));
                    lemma_name_starts(name, false, declared, sp);
                    assert(s[start as int + 1] == n[0]);
                },
                _ => {},
            }
            lemma_read_pattern(p, 0, declared, sp, s, start);
        },
    }
}

/// A grammar in braces is a schema: reading it gives the grammar.
pub proof fn law_braced_grammars_are_read_back(
    grammar: GrammarModel,
    ctx: ContextModel,
    sp: Spelling,
)
    requires
        grammar_writable(grammar, ctx, sp),
    ensures
        read_schema(
            (term("grammar"@) + grammar_tokens(grammar, sp)).push(TokenModel::End),
            ctx,
        ) == Ok::<RootModel, Text>(RootModel::Grammar(grammar)),
{
    reveal_strlit("default");
    reveal_strlit("namespace");
    reveal_strlit("datatypes");
    reveal_strlit("grammar");
    assert("default"@.len() == 7 && "default"@[0] == 'd');
    assert("namespace"@.len() == 9);
    assert("datatypes"@.len() == 9);
    assert("grammar"@.len() == 7 && "grammar"@[0] == 'g');
    let t = grammar_tokens(grammar, sp);
    let s = (term("grammar"@) + t).push(TokenModel::End);
    assert(at(s, 0, term("grammar"@) + t));
    lemma_at_parts(s, 0, term("grammar"@), t);
    lemma_at_one(s, 0, TokenModel::Word("grammar"@));
    lemma_read_grammar(grammar, ctx, sp, s, 1);
    assert(read_declarations(s, 0, ctx) == Ok::<(ContextModel, nat), Text>((ctx, 0)));
    assert(read_body(s, 0, ctx) == Ok::<(RootModel, nat), Text>(
        (RootModel::Grammar(grammar), 1 + t.len()),
    ));
}

/// A pattern in parentheses is a schema: reading it gives the pattern.
pub proof fn law_enclosed_patterns_are_read_back(p: PatternModel, ctx: ContextModel, sp: Spelling)
    requires
        writable(p, ctx, sp),
    ensures
        read_schema(
            (mark('(') + tokens(p, 0, sp) + mark(')')).push(TokenModel::End),
            ctx,
        ) == Ok::<RootModel, Text>(RootModel::Pattern(p)),
{
    let inner = tokens(p, 0, sp);
    let t = (mark('(') + inner + mark(')')).push(TokenModel::End);
    assert(at(t, 0, mark('(') + inner + mark(')')));
    lemma_at_three(t, 0, mark('('), inner, mark(')'));
    lemma_at_one(t, 0, TokenModel::Symbol('('));
    lemma_at_one(t, 1 + inner.len(), TokenModel::Symbol(')'));
    lemma_read_pattern(p, 0, ctx, sp, t, 1);
    let end = 2 + inner.len();
    assert(read_primary(t, 0, ctx) == Ok::<(PatternModel, nat), Text>((p, end)));
    assert(with_marks(t, end, p) == (p, end));
    assert(read_postfix(t, 0, ctx) == Ok::<(PatternModel, nat), Text>((p, end)));
    assert(read_level(t, 0, ctx, 3) == Ok::<(PatternModel, nat), Text>((p, end)));
    lemma_climb(p, ctx, t, 0, end, 3, 0);
    assert(read_declarations(t, 0, ctx) == Ok::<(ContextModel, nat), Text>((ctx, 0)));
    assert(read_body(t, 0, ctx) == Ok::<(RootModel, nat), Text>((RootModel::Pattern(p), end)));
}

/// A name class starts with a word, an opening parenthesis or an asterisk.
proof fn lemma_name_starts(n: NameModel, is_attribute: bool, ctx: ContextModel, sp: Spelling)
    requires
        name_writable(n, is_attribute, ctx, sp),
    ensures
        ({
            let t = name_tokens(n, is_attribute, false, sp);
            t.len() > 0 && (t[0] is Word || t[0] == TokenModel::Symbol('(') || t[0]
                == TokenModel::Symbol('*'))
        }),
    decreases n, 1nat, 0nat,
{
    match n {
        NameModel::Choice(options) => {
            lemma_options_start(options, is_attribute, ctx, sp, options.len());
        },
        _ => {},
    }
}

/// The first alternatives start as a name class does.
proof fn lemma_options_start(
    options: Seq<NameModel>,
    is_attribute: bool,
    ctx: ContextModel,
    sp: Spelling,
    n: nat,
)
    requires
        0 < n <= options.len(),
        forall|i: int|
            0 <= i < options.len() ==> name_writable(#[trigger] options[i], is_attribute, ctx, sp),
    ensures
        ({
            let t = option_tokens(options, is_attribute, sp, n);
            t.len() > 0 && (t[0] is Word || t[0] == TokenModel::Symbol('(') || t[0]
                == TokenModel::Symbol('*'))
        }),
    decreases options, 0nat, n,
{
    if n == 1 {
        assert(name_writable(options[0], is_attribute, ctx, sp));
        lemma_name_starts(options[0], is_attribute, ctx, sp);
        let t = name_tokens(options[0], is_attribute, true, sp);
        if name_alone(options[0]) {
            assert(t == name_tokens(options[0], is_attribute, false, sp));
        } else {
            assert(t[0] == TokenModel::Symbol('('));
        }
    } else {
        lemma_options_start(options, is_attribute, ctx, sp, (n - 1) as nat);
        let front = option_tokens(options, is_attribute, sp, (n - 1) as nat);
        assert(option_tokens(options, is_attribute, sp, n)[0] == front[0]);
    }
}

/// How many brackets are open behind the first `n` tokens.
pub open spec fn open_brackets(t: Seq<TokenModel>, n: nat) -> int
    decreases n,
{
    if n == 0 || n > t.len() {
        0
    } else {
        open_brackets(t, (n - 1) as nat) + (if t[n - 1] == TokenModel::Symbol('[') {
            1int
        } else if t[n - 1] == TokenModel::Symbol(']') {
            -1int
        } else {
            0int
        })
    }
}

/// Whether tokens are an annotation: a bracket, and what stands up to the one that closes it.
pub open spec fn annotation(t: Seq<TokenModel>) -> bool {
    t.len() > 0 && t[0] == TokenModel::Symbol('[') && open_brackets(t, t.len()) == 0 && (forall|
        k: nat,
    |
        0 < k < t.len() ==> #[trigger] open_brackets(t, k) > 0) && (forall|i: int|
        0 <= i < t.len() ==> !((#[trigger] t[i]) is End))
}

/// An annotation is skipped as a whole, with the brackets inside it, and what stands behind it
/// is next.
pub proof fn law_annotations_are_skipped(t: Seq<TokenModel>, s: Seq<TokenModel>, pos: nat)
    requires
        annotation(t),
        at(s, pos, t),
    ensures
        after_annotations(s, pos) == after_annotations(s, pos + t.len()),
{
    assert(s[pos as int] == t[0]);
    assert(open_brackets(t, 0) == 0);
    lemma_bracket(t, s, pos, 0);
}

/// The closing bracket is found from any place inside an annotation.
proof fn lemma_bracket(t: Seq<TokenModel>, s: Seq<TokenModel>, pos: nat, k: nat)
    requires
        annotation(t),
        at(s, pos, t),
        k < t.len(),
    ensures
        after_brackets(s, pos + k, open_brackets(t, k) as nat) == Ok::<nat, Text>(pos + t.len()),
    decreases t.len() - k,
{
    let here = t[k as int];
    assert(s[pos + k as int] == here);
    assert(!(here is End));
    assert(open_brackets(t, 0) == 0);
    assert(k > 0 ==> open_brackets(t, k) > 0);
    let next = open_brackets(t, k + 1);
    if k + 1 < t.len() {
        assert(open_brackets(t, k + 1) > 0);
        lemma_bracket(t, s, pos, k + 1);
    } else {
        assert(next == 0);
        assert(k == 0 ==> here == TokenModel::Symbol('['));
    }
}

} // verus!
