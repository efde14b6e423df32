//! The compact syntax: from tokens to patterns.
//!
//! Every function takes the position of the next token and gives, with what it read, the
//! position behind it.
use vstd::prelude::*;

use crate::algebra::single;
use crate::grammar::{
    items_of, names_of, params_of, patterns_of, Combine, Context, ContextModel, Grammar,
    GrammarItem, GrammarModel, ItemModel, NameClass, NameModel, Param, ParamModel, Pattern,
    PatternModel, Root, RootModel, SchemaDocument,
};
use crate::lexer::{decode_unicode_escapes, lex, lexed, tokens_of, unescaped, Token, TokenModel};
use crate::resolver::SchemaSource;
use crate::string_map::{inserted, lookup, Duplicate};
use crate::syntax::{
    initial_context, namespace_of, resolve_namespace, starting_context, ParseError,
};
use crate::text::{
    concat3, copy_opt, find, from_chars, occurs, opt_text, same, split_at_first, split_once,
    to_chars, Text,
};
use vstd::slice::slice_subrange;

verus! {

/// What a reading function gives: what it read and the position behind it, or the message
/// of an error.
pub type Reading<T> = Result<(T, nat), Text>;

/// The token at a position; behind the last one there is the end.
pub open spec fn token_at(s: Seq<TokenModel>, pos: nat) -> TokenModel {
    if pos < s.len() {
        s[pos as int]
    } else {
        TokenModel::End
    }
}

/// Whether the token at a position is the punctuation mark.
pub open spec fn symbol_at(s: Seq<TokenModel>, pos: nat, symbol: char) -> bool {
    token_at(s, pos) == TokenModel::Symbol(symbol)
}

/// Whether the token at a position is the word.
pub open spec fn word_at(s: Seq<TokenModel>, pos: nat, word: Text) -> bool {
    token_at(s, pos) == TokenModel::Word(word)
}

/// How many tokens there are from a position on.
pub open spec fn remaining(s: Seq<TokenModel>, pos: nat) -> nat {
    if pos <= s.len() {
        (s.len() - pos) as nat
    } else {
        0
    }
}

/// The position behind a punctuation mark that must be next.
pub open spec fn after_symbol(s: Seq<TokenModel>, pos: nat, symbol: char) -> Result<nat, Text> {
    if symbol_at(s, pos, symbol) {
        Ok(pos + 1)
    } else {
        Err("expected `"@ + seq![symbol] + "`"@)
    }
}

/// The position behind a word that must be next.
pub open spec fn after_word(s: Seq<TokenModel>, pos: nat, word: Text) -> Result<nat, Text> {
    if word_at(s, pos, word) {
        Ok(pos + 1)
    } else {
        Err("expected `"@ + word + "`"@)
    }
}

/// A name that must be next.
pub open spec fn read_identifier(s: Seq<TokenModel>, pos: nat) -> Reading<Text> {
    match token_at(s, pos) {
        TokenModel::Word(value) => Ok((value, pos + 1)),
        _ => Err("expected identifier"@),
    }
}

/// A string literal that must be next.
pub open spec fn read_literal(s: Seq<TokenModel>, pos: nat) -> Reading<Text> {
    match token_at(s, pos) {
        TokenModel::Literal(value) => Ok((value, pos + 1)),
        _ => Err("expected string literal"@),
    }
}

/// What no reading comes to: a position that does not move on.
pub open spec fn stuck<T>() -> Reading<T> {
    Err(Seq::empty())
}

/// The position behind the bracket that closes an annotation, at a nesting depth.
pub open spec fn after_brackets(s: Seq<TokenModel>, pos: nat, depth: nat) -> Result<nat, Text>
    decreases remaining(s, pos),
{
    match token_at(s, pos) {
        TokenModel::End => Err("unterminated compact syntax annotation"@),
        TokenModel::Symbol('[') => after_brackets(s, pos + 1, depth + 1),
        TokenModel::Symbol(']') => if depth <= 1 {
            Ok(pos + 1)
        } else {
            after_brackets(s, pos + 1, (depth - 1) as nat)
        },
        _ => after_brackets(s, pos + 1, depth),
    }
}

/// The closing bracket stands behind.
pub proof fn lemma_after_brackets(s: Seq<TokenModel>, pos: nat, depth: nat)
    ensures
        after_brackets(s, pos, depth) matches Ok(next) ==> pos < next <= s.len(),
    decreases remaining(s, pos),
{
    match token_at(s, pos) {
        TokenModel::End => {},
        TokenModel::Symbol('[') => {
            lemma_after_brackets(s, pos + 1, depth + 1);
        },
        TokenModel::Symbol(']') => if depth > 1 {
            lemma_after_brackets(s, pos + 1, (depth - 1) as nat);
        },
        _ => {
            lemma_after_brackets(s, pos + 1, depth);
        },
    }
}

/// The position behind the annotations that are next, if any.
pub open spec fn after_annotations(s: Seq<TokenModel>, pos: nat) -> Result<nat, Text>
    decreases remaining(s, pos),
{
    if symbol_at(s, pos, '[') {
        match after_brackets(s, pos, 0) {
            Err(message) => Err(message),
            Ok(next) => {
                proof {
                    lemma_after_brackets(s, pos, 0);
                }
                after_annotations(s, next)
            },
        }
    } else {
        Ok(pos)
    }
}

/// Annotations end no earlier than they start.
pub proof fn lemma_after_annotations(s: Seq<TokenModel>, pos: nat)
    ensures
        after_annotations(s, pos) matches Ok(next) ==> pos <= next && (next > pos ==> next
            <= s.len()),
    decreases remaining(s, pos),
{
    if symbol_at(s, pos, '[') {
        lemma_after_brackets(s, pos, 0);
        match after_brackets(s, pos, 0) {
            Err(message) => {},
            Ok(next) => {
                lemma_after_annotations(s, next);
            },
        }
    }
}

// ---------------------------------------------------------------------
// Names
// ---------------------------------------------------------------------

/// The text without trailing colons.
pub open spec fn trim_colons(t: Text) -> Text
    decreases t.len(),
{
    if t.len() > 0 && t.last() == ':' {
        trim_colons(t.drop_last())
    } else {
        t
    }
}

/// The local name and the namespace of a name. A name without a prefix has the default
/// namespace as an element's, and none as an attribute's.
pub open spec fn compact_name(lexical: Text, is_attribute: bool, ctx: ContextModel) -> Result<
    (Text, Option<Text>),
    Text,
> {
    match split_once(lexical, ':') {
        Some((prefix, local)) => match namespace_of(
            ctx.namespaces,
            prefix,
            "unknown namespace prefix"@,
        ) {
            Ok(uri) => Ok((local, Some(uri))),
            Err(message) => Err(message),
        },
        None => Ok(
            (
                lexical,
                if is_attribute {
                    Some(Seq::empty())
                } else {
                    ctx.default_namespace
                },
            ),
        ),
    }
}

/// The local name of a datatype and its library.
pub open spec fn datatype_of(name: Text, ctx: ContextModel) -> (Text, Option<Text>) {
    match split_once(name, ':') {
        Some((prefix, local)) => (local, lookup(ctx.namespaces, prefix)),
        None => (name, Some(Seq::empty())),
    }
}

/// A name class that is no alternative: `(...)`, `*`, `prefix:*` or a name, where the two
/// wildcards may have an exception behind a hyphen.
pub open spec fn read_name_atom(
    s: Seq<TokenModel>,
    pos: nat,
    ctx: ContextModel,
    is_attribute: bool,
) -> Reading<NameModel>
    decreases remaining(s, pos), 0nat,
{
    if symbol_at(s, pos, '(') {
        match read_name_class(s, pos + 1, ctx, is_attribute) {
            Err(message) => Err(message),
            Ok((inner, next)) => match after_symbol(s, next, ')') {
                Err(message) => Err(message),
                Ok(end) => Ok((inner, end)),
            },
        }
    } else {
        match read_name_base(s, pos, ctx, is_attribute) {
            Err(message) => Err(message),
            Ok((base, next)) => if symbol_at(s, next, '-') {
                if next < pos {
                    stuck()
                } else {
                    match read_name_class(s, next + 1, ctx, is_attribute) {
                        Err(message) => Err(message),
                        Ok((except, end)) => match base {
                            NameModel::Any { except: none, context } => Ok(
                                (NameModel::Any { except: seq![except], context }, end),
                            ),
                            NameModel::Namespace { namespace, except: none, context } => Ok(
                                (
                                    NameModel::Namespace {
                                        namespace,
                                        except: seq![except],
                                        context,
                                    },
                                    end,
                                ),
                            ),
                            _ => Err("only wildcard name classes may use except"@),
                        },
                    }
                }
            } else {
                Ok((base, next))
            },
        }
    }
}

/// `*`, `prefix:*` or a name.
pub open spec fn read_name_base(
    s: Seq<TokenModel>,
    pos: nat,
    ctx: ContextModel,
    is_attribute: bool,
) -> Reading<NameModel> {
    if symbol_at(s, pos, '*') {
        Ok((NameModel::Any { except: Seq::empty(), context: ctx }, pos + 1))
    } else {
        match read_identifier(s, pos) {
            Err(message) => Err(message),
            Ok((lexical, next)) => if lexical.len() > 0 && lexical.last() == ':' && symbol_at(
                s,
                next,
                '*',
            ) {
                match namespace_of(
                    ctx.namespaces,
                    trim_colons(lexical),
                    "unknown namespace prefix"@,
                ) {
                    Err(message) => Err(message),
                    Ok(uri) => Ok(
                        (
                            NameModel::Namespace {
                                namespace: Some(uri),
                                except: Seq::empty(),
                                context: ctx,
                            },
                            next + 1,
                        ),
                    ),
                }
            } else {
                match compact_name(lexical, is_attribute, ctx) {
                    Err(message) => Err(message),
                    Ok((local, namespace)) => Ok(
                        (NameModel::Name { lexical: local, namespace, context: ctx }, next),
                    ),
                }
            },
        }
    }
}

/// A name class: alternatives with `|` between them.
pub open spec fn read_name_class(
    s: Seq<TokenModel>,
    pos: nat,
    ctx: ContextModel,
    is_attribute: bool,
) -> Reading<NameModel>
    decreases remaining(s, pos), 2nat,
{
    match read_name_atom(s, pos, ctx, is_attribute) {
        Err(message) => Err(message),
        Ok((first, next)) => if next < pos {
            stuck()
        } else {
            read_more_names(s, next, ctx, is_attribute, seq![first])
        },
    }
}

/// The alternatives of a name class that follow those read already.
pub open spec fn read_more_names(
    s: Seq<TokenModel>,
    pos: nat,
    ctx: ContextModel,
    is_attribute: bool,
    read: Seq<NameModel>,
) -> Reading<NameModel>
    decreases remaining(s, pos), 1nat,
{
    if symbol_at(s, pos, '|') {
        match read_name_atom(s, pos + 1, ctx, is_attribute) {
            Err(message) => Err(message),
            Ok((value, next)) => if next <= pos {
                stuck()
            } else {
                read_more_names(s, next, ctx, is_attribute, read.push(value))
            },
        }
    } else if read.len() == 1 {
        Ok((read[0], pos))
    } else {
        Ok((NameModel::Choice(read), pos))
    }
}

// ---------------------------------------------------------------------
// Patterns
// ---------------------------------------------------------------------

/// The punctuation mark between the operands of a level: alternatives bind least, then
/// interleaved patterns, then groups.
pub open spec fn separator(level: nat) -> char {
    if level == 0 {
        '|'
    } else if level == 1 {
        '&'
    } else {
        ','
    }
}

/// The pattern of the operands of a level.
pub open spec fn joined(level: nat, read: Seq<PatternModel>) -> PatternModel {
    if read.len() == 1 {
        read[0]
    } else if level == 0 {
        PatternModel::Choice(read)
    } else if level == 1 {
        PatternModel::Interleave(read)
    } else {
        PatternModel::Group(read)
    }
}

/// A pattern of a level: operands of the next level, with separators between them. The
/// last level is that of patterns with repetition marks.
pub open spec fn read_level(s: Seq<TokenModel>, pos: nat, ctx: ContextModel, level: nat) -> Reading<
    PatternModel,
>
    decreases
            remaining(s, pos),
            (if level < 3 {
                20 - 2 * level
            } else {
                10
            }) as nat,
{
    if level >= 3 {
        read_postfix(s, pos, ctx)
    } else {
        match read_level(s, pos, ctx, level + 1) {
            Err(message) => Err(message),
            Ok((first, next)) => if next < pos {
                stuck()
            } else {
                read_more(s, next, ctx, level, seq![first])
            },
        }
    }
}

/// The operands of a level that follow those read already.
pub open spec fn read_more(
    s: Seq<TokenModel>,
    pos: nat,
    ctx: ContextModel,
    level: nat,
    read: Seq<PatternModel>,
) -> Reading<PatternModel>
    decreases
            remaining(s, pos),
            (if level < 3 {
                19 - 2 * level
            } else {
                9
            }) as nat,
{
    if symbol_at(s, pos, separator(level)) {
        match read_level(s, pos + 1, ctx, level + 1) {
            Err(message) => Err(message),
            Ok((value, next)) => if next <= pos {
                stuck()
            } else {
                read_more(s, next, ctx, level, read.push(value))
            },
        }
    } else {
        Ok((joined(level, read), pos))
    }
}

/// The pattern with the repetition marks that are next, and the position behind them.
pub open spec fn with_marks(s: Seq<TokenModel>, pos: nat, pattern: PatternModel) -> (
    PatternModel,
    nat,
)
    decreases remaining(s, pos),
{
    if symbol_at(s, pos, '?') {
        with_marks(s, pos + 1, PatternModel::Optional(seq![pattern]))
    } else if symbol_at(s, pos, '*') {
        with_marks(s, pos + 1, PatternModel::ZeroOrMore(seq![pattern]))
    } else if symbol_at(s, pos, '+') {
        with_marks(s, pos + 1, PatternModel::OneOrMore(seq![pattern]))
    } else {
        (pattern, pos)
    }
}

/// A primary pattern with the repetition marks and the annotations behind it.
pub open spec fn read_postfix(s: Seq<TokenModel>, pos: nat, ctx: ContextModel) -> Reading<
    PatternModel,
>
    decreases remaining(s, pos), 5nat,
{
    match read_primary(s, pos, ctx) {
        Err(message) => Err(message),
        Ok((first, next)) => {
            let (pattern, marked) = with_marks(s, next, first);
            match after_annotations(s, marked) {
                Err(message) => Err(message),
                Ok(end) => Ok((pattern, end)),
            }
        },
    }
}

/// A pattern in braces.
pub open spec fn read_braced(s: Seq<TokenModel>, pos: nat, ctx: ContextModel) -> Reading<
    PatternModel,
>
    decreases remaining(s, pos), 1nat,
{
    match after_symbol(s, pos, '{') {
        Err(message) => Err(message),
        Ok(start) => match read_level(s, start, ctx, 0) {
            Err(message) => Err(message),
            Ok((body, next)) => match after_symbol(s, next, '}') {
                Err(message) => Err(message),
                Ok(end) => Ok((body, end)),
            },
        },
    }
}

/// A reference to another schema: the keyword, a string literal, and `inherit = prefix`
/// where it is there.
pub open spec fn read_reference(s: Seq<TokenModel>, pos: nat, ctx: ContextModel, word: Text) -> Reading<
    (Text, Option<Text>),
> {
    match after_word(s, pos, word) {
        Err(message) => Err(message),
        Ok(start) => match read_literal(s, start) {
            Err(message) => Err(message),
            Ok((href, next)) => if !word_at(s, next, "inherit"@) {
                Ok(((href, None), next))
            } else {
                match after_symbol(s, next + 1, '=') {
                    Err(message) => Err(message),
                    Ok(equals) => match read_identifier(s, equals) {
                        Err(message) => Err(message),
                        Ok((prefix, end)) => match namespace_of(
                            ctx.namespaces,
                            prefix,
                            "unknown inherited namespace prefix"@,
                        ) {
                            Err(message) => Err(message),
                            Ok(uri) => Ok(((href, Some(uri)), end)),
                        },
                    },
                }
            },
        },
    }
}

/// The context of a reference to another schema: the namespace that it names, where it
/// names one, is in force for what it refers to.
pub open spec fn referring(ctx: ContextModel, inherit_namespace: Option<Text>) -> ContextModel {
    match inherit_namespace {
        Some(uri) => ContextModel { ns: Some(uri), ..ctx },
        None => ctx,
    }
}

/// The parameters of a datatype up to the closing brace, after those read already; the
/// position is that of the brace.
pub open spec fn read_params(
    s: Seq<TokenModel>,
    pos: nat,
    ctx: ContextModel,
    read: Seq<ParamModel>,
) -> Reading<Seq<ParamModel>>
    decreases remaining(s, pos),
{
    if symbol_at(s, pos, '}') {
        Ok((read, pos))
    } else {
        match read_identifier(s, pos) {
            Err(message) => Err(message),
            Ok((name, next)) => match after_symbol(s, next, '=') {
                Err(message) => Err(message),
                Ok(equals) => match read_literal(s, equals) {
                    Err(message) => Err(message),
                    Ok((value, end)) => read_params(
                        s,
                        end,
                        ctx,
                        read.push(ParamModel { name, value, context: ctx }),
                    ),
                },
            },
        }
    }
}

/// Parameters end no earlier than they start.
pub proof fn lemma_read_params(
    s: Seq<TokenModel>,
    pos: nat,
    ctx: ContextModel,
    read: Seq<ParamModel>,
)
    ensures
        read_params(s, pos, ctx, read) matches Ok((params, end)) ==> pos <= end < s.len(),
    decreases remaining(s, pos),
{
    if !symbol_at(s, pos, '}') {
        match read_identifier(s, pos) {
            Err(message) => {},
            Ok((name, next)) => match after_symbol(s, next, '=') {
                Err(message) => {},
                Ok(equals) => match read_literal(s, equals) {
                    Err(message) => {},
                    Ok((value, end)) => {
                        lemma_read_params(
                            s,
                            end,
                            ctx,
                            read.push(ParamModel { name, value, context: ctx }),
                        );
                    },
                },
            },
        }
    }
}

/// A datatype without parameters or exceptions.
pub open spec fn plain_data(
    datatype: Text,
    library: Option<Text>,
    ctx: ContextModel,
) -> PatternModel {
    PatternModel::Data {
        datatype,
        datatype_library: library,
        params: Seq::empty(),
        except: Seq::empty(),
        context: ctx,
    }
}

/// What follows a name that starts a pattern: a literal of that datatype, a datatype with
/// parameters, a datatype by its prefix or built in, or else a reference by that name.
pub open spec fn read_named(s: Seq<TokenModel>, pos: nat, ctx: ContextModel, name: Text) -> Reading<
    PatternModel,
>
    decreases remaining(s, pos), 1nat,
{
    let (datatype, library) = datatype_of(name, ctx);
    if token_at(s, pos) is Literal {
        match read_literal(s, pos) {
            Err(message) => Err(message),
            Ok((value, end)) => Ok(
                (
                    PatternModel::Value {
                        value,
                        datatype: Some(datatype),
                        datatype_library: library,
                        namespace: None,
                        context: ctx,
                    },
                    end,
                ),
            ),
        }
    } else if symbol_at(s, pos, '{') {
        match read_params(s, pos + 1, ctx, Seq::empty()) {
            Err(message) => Err(message),
            Ok((params, brace)) => if symbol_at(s, brace + 1, '-') {
                proof {
                    lemma_read_params(s, pos + 1, ctx, Seq::empty());
                }
                match read_level(s, brace + 2, ctx, 0) {
                    Err(message) => Err(message),
                    Ok((except, end)) => Ok(
                        (
                            PatternModel::Data {
                                datatype,
                                datatype_library: library,
                                params,
                                except: seq![except],
                                context: ctx,
                            },
                            end,
                        ),
                    ),
                }
            } else {
                Ok(
                    (
                        PatternModel::Data {
                            datatype,
                            datatype_library: library,
                            params,
                            except: Seq::empty(),
                            context: ctx,
                        },
                        brace + 1,
                    ),
                )
            },
        }
    } else if occurs(name, ':') {
        Ok((plain_data(datatype, library, ctx), pos))
    } else if name == "string"@ || name == "token"@ {
        Ok((plain_data(name, Some(Seq::empty()), ctx), pos))
    } else {
        Ok((PatternModel::Ref(name), pos))
    }
}

/// A pattern without operators.
pub open spec fn read_primary(s: Seq<TokenModel>, pos: nat, ctx: ContextModel) -> Reading<
    PatternModel,
>
    decreases remaining(s, pos), 3nat,
{
    if symbol_at(s, pos, '(') {
        match read_level(s, pos + 1, ctx, 0) {
            Err(message) => Err(message),
            Ok((value, next)) => match after_symbol(s, next, ')') {
                Err(message) => Err(message),
                Ok(end) => Ok((value, end)),
            },
        }
    } else if word_at(s, pos, "element"@) {
        match read_name_class(s, pos + 1, ctx, false) {
            Err(message) => Err(message),
            Ok((name, next)) => if next <= pos {
                stuck()
            } else {
                match read_braced(s, next, ctx) {
                    Err(message) => Err(message),
                    Ok((body, end)) => Ok(
                        (PatternModel::Element { name, body: seq![body], context: ctx }, end),
                    ),
                }
            },
        }
    } else if word_at(s, pos, "attribute"@) {
        match read_name_class(s, pos + 1, ctx, true) {
            Err(message) => Err(message),
            Ok((name, next)) => if next <= pos {
                stuck()
            } else {
                match read_braced(s, next, ctx) {
                    Err(message) => Err(message),
                    Ok((body, end)) => Ok(
                        (PatternModel::Attribute { name, body: seq![body], context: ctx }, end),
                    ),
                }
            },
        }
    } else if word_at(s, pos, "list"@) {
        match read_braced(s, pos + 1, ctx) {
            Err(message) => Err(message),
            Ok((body, end)) => Ok((PatternModel::List(seq![body]), end)),
        }
    } else if word_at(s, pos, "mixed"@) {
        match read_braced(s, pos + 1, ctx) {
            Err(message) => Err(message),
            Ok((body, end)) => Ok((PatternModel::Mixed(seq![body]), end)),
        }
    } else if word_at(s, pos, "grammar"@) {
        match read_grammar(s, pos + 1, ctx) {
            Err(message) => Err(message),
            Ok((grammar, end)) => Ok((PatternModel::Grammar(grammar), end)),
        }
    } else if word_at(s, pos, "external"@) {
        match read_reference(s, pos, ctx, "external"@) {
            Err(message) => Err(message),
            Ok(((href, inherit_namespace), end)) => Ok(
                (
                    PatternModel::ExternalRef {
                        href,
                        inherit_namespace,
                        context: referring(ctx, inherit_namespace),
                    },
                    end,
                ),
            ),
        }
    } else if word_at(s, pos, "parent"@) {
        match read_identifier(s, pos + 1) {
            Err(message) => Err(message),
            Ok((name, end)) => Ok((PatternModel::ParentRef(name), end)),
        }
    } else if word_at(s, pos, "empty"@) {
        Ok((PatternModel::Empty, pos + 1))
    } else if word_at(s, pos, "text"@) {
        Ok((PatternModel::Text, pos + 1))
    } else if word_at(s, pos, "notAllowed"@) {
        Ok((PatternModel::NotAllowed, pos + 1))
    } else {
        match token_at(s, pos) {
            TokenModel::Literal(value) => Ok(
                (
                    PatternModel::Value {
                        value,
                        datatype: None,
                        datatype_library: None,
                        namespace: None,
                        context: ctx,
                    },
                    pos + 1,
                ),
            ),
            TokenModel::Word(name) => read_named(s, pos + 1, ctx, name),
            _ => Err("expected identifier"@),
        }
    }
}

// ---------------------------------------------------------------------
// Grammars
// ---------------------------------------------------------------------

/// A grammar in braces.
pub open spec fn read_grammar(s: Seq<TokenModel>, pos: nat, ctx: ContextModel) -> Reading<
    GrammarModel,
>
    decreases remaining(s, pos), 2nat,
{
    match read_braced_items(s, pos, ctx) {
        Err(message) => Err(message),
        Ok((items, end)) => Ok((GrammarModel { context: ctx, items }, end)),
    }
}

/// Grammar components in braces.
pub open spec fn read_braced_items(s: Seq<TokenModel>, pos: nat, ctx: ContextModel) -> Reading<
    Seq<ItemModel>,
>
    decreases remaining(s, pos), 1nat,
{
    match after_symbol(s, pos, '{') {
        Err(message) => Err(message),
        Ok(start) => match read_items(s, start, ctx, true, Seq::empty()) {
            Err(message) => Err(message),
            Ok((items, next)) => match after_symbol(s, next, '}') {
                Err(message) => Err(message),
                Ok(end) => Ok((items, end)),
            },
        },
    }
}

/// How definitions combine, by the mark before the equals sign.
pub open spec fn read_combine(s: Seq<TokenModel>, pos: nat) -> Reading<Option<Combine>> {
    if symbol_at(s, pos, '|') {
        match after_symbol(s, pos + 1, '=') {
            Err(message) => Err(message),
            Ok(end) => Ok((Some(Combine::Choice), end)),
        }
    } else if symbol_at(s, pos, '&') {
        match after_symbol(s, pos + 1, '=') {
            Err(message) => Err(message),
            Ok(end) => Ok((Some(Combine::Interleave), end)),
        }
    } else {
        match after_symbol(s, pos, '=') {
            Err(message) => Err(message),
            Ok(end) => Ok((None, end)),
        }
    }
}

/// A definition of a name; `start` is what the grammar starts with.
pub open spec fn read_definition(s: Seq<TokenModel>, pos: nat, ctx: ContextModel) -> Reading<
    ItemModel,
>
    decreases remaining(s, pos), 1nat,
{
    match read_identifier(s, pos) {
        Err(message) => Err(message),
        Ok((name, next)) => match read_combine(s, next) {
            Err(message) => Err(message),
            Ok((combine, start)) => match read_level(s, start, ctx, 0) {
                Err(message) => Err(message),
                Ok((body, end)) => if name == "start"@ {
                    Ok((ItemModel::Start { combine, body: seq![body] }, end))
                } else {
                    Ok((ItemModel::Define { name, combine, body: seq![body] }, end))
                },
            },
        },
    }
}

/// A grammar component.
pub open spec fn read_item(s: Seq<TokenModel>, pos: nat, ctx: ContextModel) -> Reading<ItemModel>
    decreases remaining(s, pos), 2nat,
{
    if word_at(s, pos, "div"@) {
        match read_braced_items(s, pos + 1, ctx) {
            Err(message) => Err(message),
            Ok((items, end)) => Ok((ItemModel::Div(items), end)),
        }
    } else if word_at(s, pos, "include"@) {
        match read_reference(s, pos, ctx, "include"@) {
            Err(message) => Err(message),
            Ok(((href, inherit_namespace), next)) => if symbol_at(s, next, '{') {
                if next <= pos {
                    stuck()
                } else {
                    match read_braced_items(s, next, ctx) {
                        Err(message) => Err(message),
                        Ok((body, end)) => Ok(
                            (
                                ItemModel::Include {
                                    href,
                                    inherit_namespace,
                                    body,
                                    context: referring(ctx, inherit_namespace),
                                },
                                end,
                            ),
                        ),
                    }
                }
            } else {
                Ok(
                    (
                        ItemModel::Include {
                            href,
                            inherit_namespace,
                            body: Seq::empty(),
                            context: referring(ctx, inherit_namespace),
                        },
                        next,
                    ),
                )
            },
        }
    } else {
        read_definition(s, pos, ctx)
    }
}

/// Grammar components up to the end or, in braces, the closing brace, after those read
/// already.
pub open spec fn read_items(
    s: Seq<TokenModel>,
    pos: nat,
    ctx: ContextModel,
    braces: bool,
    read: Seq<ItemModel>,
) -> Reading<Seq<ItemModel>>
    decreases remaining(s, pos), 3nat,
{
    if token_at(s, pos) is End || (braces && symbol_at(s, pos, '}')) {
        Ok((read, pos))
    } else {
        match after_annotations(s, pos) {
            Err(message) => Err(message),
            Ok(start) => if braces && symbol_at(s, start, '}') {
                Ok((read, start))
            } else {
                proof {
                    lemma_after_annotations(s, pos);
                }
                match read_item(s, start, ctx) {
                    Err(message) => Err(message),
                    Ok((item, next)) => if next <= pos {
                        stuck()
                    } else {
                        read_items(s, next, ctx, braces, read.push(item))
                    },
                }
            },
        }
    }
}

// ---------------------------------------------------------------------
// Schemas
// ---------------------------------------------------------------------

/// A declaration: of a namespace prefix, of a prefix of datatypes, or of the default
/// namespace.
pub open spec fn read_declaration(s: Seq<TokenModel>, pos: nat, ctx: ContextModel) -> Reading<
    ContextModel,
> {
    if word_at(s, pos, "namespace"@) || word_at(s, pos, "datatypes"@) {
        match read_identifier(s, pos + 1) {
            Err(message) => Err(message),
            Ok((prefix, next)) => match after_symbol(s, next, '=') {
                Err(message) => Err(message),
                Ok(equals) => match read_literal(s, equals) {
                    Err(message) => Err(message),
                    Ok((uri, end)) => Ok(
                        (
                            ContextModel {
                                namespaces: inserted(ctx.namespaces, prefix, uri),
                                ..ctx
                            },
                            end,
                        ),
                    ),
                },
            },
        }
    } else {
        match after_word(s, pos, "default"@) {
            Err(message) => Err(message),
            Ok(second) => match after_word(s, second, "namespace"@) {
                Err(message) => Err(message),
                Ok(third) => {
                    let start = if token_at(s, third) is Word {
                        third + 1
                    } else {
                        third
                    };
                    match after_symbol(s, start, '=') {
                        Err(message) => Err(message),
                        Ok(equals) => match read_literal(s, equals) {
                            Err(message) => Err(message),
                            Ok((uri, end)) => Ok(
                                (
                                    ContextModel {
                                        default_namespace: Some(uri),
                                        ns: Some(uri),
                                        ..ctx
                                    },
                                    end,
                                ),
                            ),
                        },
                    }
                },
            },
        }
    }
}

/// The declarations that are next, each with annotations behind it.
pub open spec fn read_declarations(s: Seq<TokenModel>, pos: nat, ctx: ContextModel) -> Reading<
    ContextModel,
>
    decreases remaining(s, pos),
{
    if word_at(s, pos, "namespace"@) || word_at(s, pos, "default"@) || word_at(
        s,
        pos,
        "datatypes"@,
    ) {
        match read_declaration(s, pos, ctx) {
            Err(message) => Err(message),
            Ok((declared, next)) => match after_annotations(s, next) {
                Err(message) => Err(message),
                Ok(end) => if end <= pos {
                    stuck()
                } else {
                    read_declarations(s, end, declared)
                },
            },
        }
    } else {
        Ok((ctx, pos))
    }
}

/// Whether a definition is next: a name and an equals sign, with a combining mark between
/// them or none.
pub open spec fn definition_at(s: Seq<TokenModel>, pos: nat) -> bool {
    token_at(s, pos) is Word && (symbol_at(s, pos + 1, '=') || symbol_at(s, pos + 1, '|')
        || symbol_at(s, pos + 1, '&'))
}

/// The body of a schema: a grammar, the components of one, or a pattern.
pub open spec fn read_body(s: Seq<TokenModel>, pos: nat, ctx: ContextModel) -> Reading<RootModel> {
    if word_at(s, pos, "grammar"@) {
        match read_grammar(s, pos + 1, ctx) {
            Err(message) => Err(message),
            Ok((grammar, end)) => Ok((RootModel::Grammar(grammar), end)),
        }
    } else if word_at(s, pos, "start"@) || word_at(s, pos, "include"@) || word_at(s, pos, "div"@)
        || definition_at(s, pos) {
        match read_items(s, pos, ctx, false, Seq::empty()) {
            Err(message) => Err(message),
            Ok((items, end)) => Ok((RootModel::Grammar(GrammarModel { context: ctx, items }), end)),
        }
    } else {
        match read_level(s, pos, ctx, 0) {
            Err(message) => Err(message),
            Ok((pattern, end)) => Ok((RootModel::Pattern(pattern), end)),
        }
    }
}

/// A schema: declarations and a body, and nothing behind it.
pub open spec fn read_schema(s: Seq<TokenModel>, ctx: ContextModel) -> Result<RootModel, Text> {
    match after_annotations(s, 0) {
        Err(message) => Err(message),
        Ok(start) => match read_declarations(s, start, ctx) {
            Err(message) => Err(message),
            Ok((declared, next)) => match read_body(s, next, declared) {
                Err(message) => Err(message),
                Ok((root, end)) => if token_at(s, end) is End {
                    Ok(root)
                } else {
                    Err("unexpected trailing compact syntax"@)
                },
            },
        },
    }
}

/// The context that a schema in the compact syntax starts from: two prefixes are declared
/// from the start, and the default namespace is the inherited one, where there is one.
pub open spec fn compact_context(base_uri: Text, inherited: Option<Text>) -> ContextModel {
    let bare = starting_context(base_uri, None, inherited);
    ContextModel {
        default_namespace: inherited,
        namespaces: inserted(
            inserted(bare.namespaces, "xml"@, "http://www.w3.org/XML/1998/namespace"@),
            "xsd"@,
            "http://www.w3.org/2001/XMLSchema-datatypes"@,
        ),
        ..bare
    }
}

/// What a schema in the compact syntax says.
pub open spec fn compact_schema(text: Text, base_uri: Text, inherited: Option<Text>) -> Result<
    RootModel,
    Text,
> {
    match unescaped(text) {
        Err(message) => Err(message),
        Ok(plain) => match lexed(plain) {
            Err(message) => Err(message),
            Ok(s) => read_schema(s, compact_context(base_uri, inherited)),
        },
    }
}

// ---------------------------------------------------------------------
// The parser
// ---------------------------------------------------------------------

/// A parser of the compact syntax: the tokens, and what declarations have established.
pub struct CompactParser {
    tokens: Vec<Token>,
    context: Context,
}

/// Whether a result is the reading, and its position is behind `pos`.
spec fn reads<T: View>(
    r: Result<(T, usize), ParseError>,
    reading: Reading<T::V>,
    pos: usize,
) -> bool {
    match r {
        Ok((value, end)) => reading == Ok::<(T::V, nat), Text>((value@, end as nat)) && pos < end,
        Err(error) => reading == Err::<(T::V, nat), Text>(error@),
    }
}

/// Whether a result is the position, and it is behind `pos`.
spec fn moves(r: Result<usize, ParseError>, next: Result<nat, Text>, pos: usize) -> bool {
    match r {
        Ok(end) => next == Ok::<nat, Text>(end as nat) && pos < end,
        Err(error) => next == Err::<nat, Text>(error@),
    }
}

impl CompactParser {
    /// The models of the tokens.
    pub closed spec fn toks(&self) -> Seq<TokenModel> {
        tokens_of(self.tokens@)
    }

    /// The model of the context.
    pub closed spec fn ctx(&self) -> ContextModel {
        self.context@
    }

    /// Whether the word is next.
    fn peek_word(&self, pos: usize, word: &str) -> (r: bool)
        ensures
            r == word_at(self.toks(), pos as nat, word@),
            r ==> pos < self.tokens.len(),
    {
        if pos < self.tokens.len() {
            match &self.tokens[pos] {
                Token::Word(value) => same(value.as_str(), word),
                _ => false,
            }
        } else {
            false
        }
    }

    /// Whether the punctuation mark is next.
    fn peek_symbol(&self, pos: usize, symbol: char) -> (r: bool)
        ensures
            r == symbol_at(self.toks(), pos as nat, symbol),
            r ==> pos < self.tokens.len(),
    {
        if pos < self.tokens.len() {
            match &self.tokens[pos] {
                Token::Symbol(value) => *value == symbol,
                _ => false,
            }
        } else {
            false
        }
    }

    /// Whether the end is next.
    fn peek_end(&self, pos: usize) -> (r: bool)
        ensures
            r == (token_at(self.toks(), pos as nat) is End),
            !r ==> pos < self.tokens.len(),
    {
        if pos < self.tokens.len() {
            matches!(&self.tokens[pos], Token::End)
        } else {
            true
        }
    }

    /// Whether a word, whatever it is, is next.
    fn peek_any_word(&self, pos: usize) -> (r: bool)
        ensures
            r == (token_at(self.toks(), pos as nat) is Word),
            r ==> pos < self.tokens.len(),
    {
        if pos < self.tokens.len() {
            matches!(&self.tokens[pos], Token::Word(_))
        } else {
            false
        }
    }

    /// Whether a string literal is next.
    fn peek_literal(&self, pos: usize) -> (r: bool)
        ensures
            r == (token_at(self.toks(), pos as nat) is Literal),
            r ==> pos < self.tokens.len(),
    {
        if pos < self.tokens.len() {
            matches!(&self.tokens[pos], Token::Literal(_))
        } else {
            false
        }
    }

    /// Reads a word that must be next.
    fn word(&self, pos: usize, word: &str) -> (r: Result<usize, ParseError>)
        ensures
            moves(r, after_word(self.toks(), pos as nat, word@), pos),
    {
        if self.peek_word(pos, word) {
            Ok(pos + 1)
        } else {
            Err(ParseError::from_string(concat3("expected `", word, "`")))
        }
    }

    /// Reads a punctuation mark that must be next.
    fn symbol(&self, pos: usize, symbol: char) -> (r: Result<usize, ParseError>)
        ensures
            moves(r, after_symbol(self.toks(), pos as nat, symbol), pos),
    {
        if self.peek_symbol(pos, symbol) {
            Ok(pos + 1)
        } else {
            let mut mark = String::new();
            mark.push(symbol);
            assert(mark@ =~= seq![symbol]);
            Err(ParseError::from_string(concat3("expected `", mark.as_str(), "`")))
        }
    }

    /// Reads a name that must be next.
    fn identifier(&self, pos: usize) -> (r: Result<(String, usize), ParseError>)
        ensures
            reads(r, read_identifier(self.toks(), pos as nat), pos),
    {
        if pos < self.tokens.len() {
            match &self.tokens[pos] {
                Token::Word(value) => {
                    return Ok((value.clone(), pos + 1));
                },
                _ => {},
            }
        }
        Err(ParseError::new("expected identifier"))
    }

    /// Reads a string literal that must be next.
    fn string(&self, pos: usize) -> (r: Result<(String, usize), ParseError>)
        ensures
            reads(r, read_literal(self.toks(), pos as nat), pos),
    {
        if pos < self.tokens.len() {
            match &self.tokens[pos] {
                Token::Literal(value) => {
                    return Ok((value.clone(), pos + 1));
                },
                _ => {},
            }
        }
        Err(ParseError::new("expected string literal"))
    }

    /// Skips the annotations that are next.
    fn skip_annotations(&self, start: usize) -> (r: Result<usize, ParseError>)
        ensures
            match r {
                Ok(end) => after_annotations(self.toks(), start as nat) == Ok::<nat, Text>(
                    end as nat,
                ) && start <= end,
                Err(error) => after_annotations(self.toks(), start as nat) == Err::<nat, Text>(
                    error@,
                ),
            },
    {
        let mut pos: usize = start;
        while self.peek_symbol(pos, '[')
            invariant
                start <= pos,
                after_annotations(self.toks(), start as nat) == after_annotations(
                    self.toks(),
                    pos as nat,
                ),
            decreases remaining(self.toks(), pos as nat),
        {
            let opening: usize = pos;
            let mut depth: usize = 0;
            let mut open: bool = true;
            while open
                invariant
                    opening <= pos <= self.tokens@.len(),
                    depth <= pos - opening,
                    symbol_at(self.toks(), opening as nat, '['),
                    after_annotations(self.toks(), start as nat) == after_annotations(
                        self.toks(),
                        opening as nat,
                    ),
                    open ==> after_brackets(self.toks(), opening as nat, 0) == after_brackets(
                        self.toks(),
                        pos as nat,
                        depth as nat,
                    ),
                    !open ==> opening < pos && after_brackets(self.toks(), opening as nat, 0)
                        == Ok::<nat, Text>(pos as nat),
                decreases remaining(self.toks(), pos as nat),
            {
                if self.peek_end(pos) {
                    return Err(ParseError::new("unterminated compact syntax annotation"));
                }
                if self.peek_symbol(pos, '[') {
                    depth += 1;
                } else if self.peek_symbol(pos, ']') {
                    if depth <= 1 {
                        open = false;
                    } else {
                        depth -= 1;
                    }
                }
                pos += 1;
            }
        }
        Ok(pos)
    }

    /// Resolves a plain name; see [`compact_name`].
    fn resolve_compact_name(&self, lexical: String, is_attribute: bool) -> (r: Result<
        (String, Option<String>),
        ParseError,
    >)
        ensures
            match r {
                Ok((local, namespace)) => compact_name(lexical@, is_attribute, self.ctx()) == Ok::<
                    (Text, Option<Text>),
                    Text,
                >((local@, opt_text(namespace))),
                Err(error) => compact_name(lexical@, is_attribute, self.ctx()) == Err::<
                    (Text, Option<Text>),
                    Text,
                >(error@),
            },
    {
        let chars = to_chars(lexical.as_str());
        match split_at_first(chars.as_slice(), ':') {
            Some((prefix, local)) => {
                let prefix = from_chars(prefix);
                match resolve_namespace(
                    &self.context.namespaces,
                    prefix.as_str(),
                    "unknown namespace prefix",
                ) {
                    Ok(namespace) => Ok((from_chars(local), Some(namespace))),
                    Err(error) => Err(error),
                }
            },
            None => {
                let namespace = if is_attribute {
                    Some(String::new())
                } else {
                    copy_opt(&self.context.default_namespace)
                };
                Ok((lexical, namespace))
            },
        }
    }

    /// The local name of a datatype and its library.
    fn datatype_parts(&self, name: &str) -> (r: (String, Option<String>))
        ensures
            datatype_of(name@, self.ctx()) == (r.0@, opt_text(r.1)),
    {
        let chars = to_chars(name);
        match split_at_first(chars.as_slice(), ':') {
            Some((prefix, local)) => {
                let prefix = from_chars(prefix);
                let library = match self.context.namespaces.get(prefix.as_str()) {
                    Some(uri) => Some(uri.clone()),
                    None => None,
                };
                (from_chars(local), library)
            },
            None => (name.to_owned(), Some(String::new())),
        }
    }

    /// Reads `*`, `prefix:*` or a name.
    fn name_class_base(&self, pos: usize, is_attribute: bool) -> (r: Result<
        (NameClass, usize),
        ParseError,
    >)
        ensures
            reads(
                r,
                read_name_base(self.toks(), pos as nat, self.ctx(), is_attribute),
                pos,
            ),
    {
        if self.peek_symbol(pos, '*') {
            let base = NameClass::Any { except: Vec::new(), context: self.context.duplicate() };
            proof {
                base.lemma_model();
                assert(names_of(base->Any_except@) =~= Seq::<NameModel>::empty());
            }
            return Ok((base, pos + 1));
        }
        match self.identifier(pos) {
            Err(error) => Err(error),
            Ok((lexical, next)) => {
                let chars = to_chars(lexical.as_str());
                if chars.len() > 0 && chars[chars.len() - 1] == ':' && self.peek_symbol(next, '*') {
                    let mut n: usize = chars.len();
                    assert(chars@.take(n as int) =~= chars@);
                    while n > 0 && chars[n - 1] == ':'
                        invariant
                            n <= chars.len(),
                            trim_colons(chars@) == trim_colons(chars@.take(n as int)),
                        decreases n,
                    {
                        assert(chars@.take(n as int).drop_last() =~= chars@.take(n - 1));
                        n -= 1;
                    }
                    let head = slice_subrange(chars.as_slice(), 0, n);
                    assert(head@ =~= chars@.take(n as int));
                    let prefix = from_chars(head);
                    match resolve_namespace(
                        &self.context.namespaces,
                        prefix.as_str(),
                        "unknown namespace prefix",
                    ) {
                        Err(error) => Err(error),
                        Ok(uri) => {
                            let base = NameClass::Namespace {
                                namespace: Some(uri),
                                except: Vec::new(),
                                context: self.context.duplicate(),
                            };
                            proof {
                                base.lemma_model();
                                assert(names_of(base->Namespace_except@) =~= Seq::<
                                    NameModel,
                                >::empty());
                            }
                            Ok((base, next + 1))
                        },
                    }
                } else {
                    match self.resolve_compact_name(lexical, is_attribute) {
                        Err(error) => Err(error),
                        Ok((local, namespace)) => {
                            let base = NameClass::Name {
                                lexical: local,
                                namespace,
                                context: self.context.duplicate(),
                            };
                            proof {
                                base.lemma_model();
                            }
                            Ok((base, next))
                        },
                    }
                }
            },
        }
    }

    /// Reads a name class that is no alternative; see [`read_name_atom`].
    fn name_class_atom(&self, pos: usize, is_attribute: bool) -> (r: Result<
        (NameClass, usize),
        ParseError,
    >)
        ensures
            reads(
                r,
                read_name_atom(self.toks(), pos as nat, self.ctx(), is_attribute),
                pos,
            ),
        decreases remaining(self.toks(), pos as nat), 0nat,
    {
        if self.peek_symbol(pos, '(') {
            return match self.name_class(pos + 1, is_attribute) {
                Err(error) => Err(error),
                Ok((inner, next)) => match self.symbol(next, ')') {
                    Err(error) => Err(error),
                    Ok(end) => Ok((inner, end)),
                },
            };
        }
        match self.name_class_base(pos, is_attribute) {
            Err(error) => Err(error),
            Ok((base, next)) => {
                if !self.peek_symbol(next, '-') {
                    return Ok((base, next));
                }
                match self.name_class(next + 1, is_attribute) {
                    Err(error) => Err(error),
                    Ok((except, end)) => {
                        proof {
                            base.lemma_model();
                        }
                        match base {
                            NameClass::Any { except: none, context } => {
                                let list = vec![except];
                                assert(names_of(list@) =~= seq![except@]);
                                let class = NameClass::Any { except: list, context };
                                proof {
                                    class.lemma_model();
                                }
                                Ok((class, end))
                            },
                            NameClass::Namespace { namespace, except: none, context } => {
                                let list = vec![except];
                                assert(names_of(list@) =~= seq![except@]);
                                let class = NameClass::Namespace {
                                    namespace,
                                    except: list,
                                    context,
                                };
                                proof {
                                    class.lemma_model();
                                }
                                Ok((class, end))
                            },
                            _ => Err(ParseError::new("only wildcard name classes may use except")),
                        }
                    },
                }
            },
        }
    }

    /// Reads a name class. `is_attribute` is only relevant to names without a prefix: the
    /// default namespace applies to those of elements and never to those of attributes.
    fn name_class(&self, pos: usize, is_attribute: bool) -> (r: Result<
        (NameClass, usize),
        ParseError,
    >)
        ensures
            reads(
                r,
                read_name_class(self.toks(), pos as nat, self.ctx(), is_attribute),
                pos,
            ),
        decreases remaining(self.toks(), pos as nat), 2nat,
    {
        let mut values: Vec<NameClass> = Vec::new();
        let mut next: usize = pos;
        match self.name_class_atom(pos, is_attribute) {
            Err(error) => {
                return Err(error);
            },
            Ok((first, end)) => {
                values.push(first);
                assert(names_of(values@) =~= seq![first@]);
                next = end;
            },
        }
        while self.peek_symbol(next, '|')
            invariant
                pos < next,
                values@.len() >= 1,
                read_name_class(self.toks(), pos as nat, self.ctx(), is_attribute)
                    == read_more_names(
                    self.toks(),
                    next as nat,
                    self.ctx(),
                    is_attribute,
                    names_of(values@),
                ),
            decreases remaining(self.toks(), next as nat),
        {
            match self.name_class_atom(next + 1, is_attribute) {
                Err(error) => {
                    return Err(error);
                },
                Ok((value, end)) => {
                    let ghost before = names_of(values@);
                    values.push(value);
                    assert(names_of(values@) =~= before.push(value@));
                    next = end;
                },
            }
        }
        if values.len() == 1 {
            Ok((values.pop().unwrap(), next))
        } else {
            let class = NameClass::Choice(values);
            proof {
                class.lemma_model();
            }
            Ok((class, next))
        }
    }

    /// Reads a pattern.
    fn pattern(&self, pos: usize) -> (r: Result<(Pattern, usize), ParseError>)
        ensures
            reads(r, read_level(self.toks(), pos as nat, self.ctx(), 0), pos),
        decreases remaining(self.toks(), pos as nat), 21nat,
    {
        self.left_assoc(pos, 0)
    }

    /// Reads operands of the next level with the separator of this one between them: one
    /// is itself, and more are joined. The levels are choice, interleave and group.
    fn left_assoc(&self, pos: usize, level: u8) -> (r: Result<(Pattern, usize), ParseError>)
        requires
            level <= 3,
        ensures
            reads(r, read_level(self.toks(), pos as nat, self.ctx(), level as nat), pos),
        decreases
                remaining(self.toks(), pos as nat),
                (if level < 3 {
                    20 - 2 * level
                } else {
                    10
                }) as nat,
    {
        if level >= 3 {
            return self.postfix(pos);
        }
        let separator = if level == 0 {
            '|'
        } else if level == 1 {
            '&'
        } else {
            ','
        };
        let mut values: Vec<Pattern> = Vec::new();
        let mut next: usize = pos;
        match self.left_assoc(pos, level + 1) {
            Err(error) => {
                return Err(error);
            },
            Ok((first, end)) => {
                values.push(first);
                assert(patterns_of(values@) =~= seq![first@]);
                next = end;
            },
        }
        while self.peek_symbol(next, separator)
            invariant
                pos < next,
                level < 3,
                separator == self::separator(level as nat),
                values@.len() >= 1,
                read_level(self.toks(), pos as nat, self.ctx(), level as nat) == read_more(
                    self.toks(),
                    next as nat,
                    self.ctx(),
                    level as nat,
                    patterns_of(values@),
                ),
            decreases remaining(self.toks(), next as nat),
        {
            match self.left_assoc(next + 1, level + 1) {
                Err(error) => {
                    return Err(error);
                },
                Ok((value, end)) => {
                    let ghost before = patterns_of(values@);
                    values.push(value);
                    assert(patterns_of(values@) =~= before.push(value@));
                    next = end;
                },
            }
        }
        if values.len() == 1 {
            Ok((values.pop().unwrap(), next))
        } else {
            let pattern = if level == 0 {
                Pattern::Choice(values)
            } else if level == 1 {
                Pattern::Interleave(values)
            } else {
                Pattern::Group(values)
            };
            proof {
                pattern.lemma_model();
            }
            Ok((pattern, next))
        }
    }

    /// Reads a primary pattern with the repetition marks and the annotations behind it.
    fn postfix(&self, pos: usize) -> (r: Result<(Pattern, usize), ParseError>)
        ensures
            reads(r, read_postfix(self.toks(), pos as nat, self.ctx()), pos),
        decreases remaining(self.toks(), pos as nat), 5nat,
    {
        match self.primary(pos) {
            Err(error) => Err(error),
            Ok((first, start)) => {
                let ghost model = first@;
                let mut pattern = first;
                let mut next: usize = start;
                while self.peek_symbol(next, '?') || self.peek_symbol(next, '*')
                    || self.peek_symbol(next, '+')
                    invariant
                        pos < start <= next,
                        with_marks(self.toks(), start as nat, model) == with_marks(
                            self.toks(),
                            next as nat,
                            pattern@,
                        ),
                    decreases remaining(self.toks(), next as nat),
                {
                    let body = single(pattern);
                    if self.peek_symbol(next, '?') {
                        pattern = Pattern::Optional(body);
                    } else if self.peek_symbol(next, '*') {
                        pattern = Pattern::ZeroOrMore(body);
                    } else {
                        pattern = Pattern::OneOrMore(body);
                    }
                    proof {
                        pattern.lemma_model();
                    }
                    next += 1;
                }
                match self.skip_annotations(next) {
                    Err(error) => Err(error),
                    Ok(end) => Ok((pattern, end)),
                }
            },
        }
    }

    /// Reads a pattern in braces.
    fn braced(&self, pos: usize) -> (r: Result<(Pattern, usize), ParseError>)
        ensures
            reads(r, read_braced(self.toks(), pos as nat, self.ctx()), pos),
        decreases remaining(self.toks(), pos as nat), 1nat,
    {
        match self.symbol(pos, '{') {
            Err(error) => Err(error),
            Ok(start) => match self.pattern(start) {
                Err(error) => Err(error),
                Ok((body, next)) => match self.symbol(next, '}') {
                    Err(error) => Err(error),
                    Ok(end) => Ok((body, end)),
                },
            },
        }
    }

    /// The context of a reference to another schema; see [`referring`].
    fn reference_context(&self, inherit_namespace: &Option<String>) -> (r: Context)
        ensures
            r@ == referring(self.ctx(), opt_text(*inherit_namespace)),
    {
        let mut context = self.context.duplicate();
        if inherit_namespace.is_some() {
            context.ns = copy_opt(inherit_namespace);
        }
        context
    }

    /// Reads a keyword followed by a string literal and an optional `inherit = prefix`.
    fn href_and_inherit_namespace(&self, pos: usize, word: &str) -> (r: Result<
        (String, Option<String>, usize),
        ParseError,
    >)
        ensures
            match r {
                Ok((href, inherit, end)) => read_reference(
                    self.toks(),
                    pos as nat,
                    self.ctx(),
                    word@,
                ) == Ok::<((Text, Option<Text>), nat), Text>(
                    ((href@, opt_text(inherit)), end as nat),
                ) && pos < end,
                Err(error) => read_reference(self.toks(), pos as nat, self.ctx(), word@) == Err::<
                    ((Text, Option<Text>), nat),
                    Text,
                >(error@),
            },
    {
        match self.word(pos, word) {
            Err(error) => Err(error),
            Ok(start) => match self.string(start) {
                Err(error) => Err(error),
                Ok((href, next)) => {
                    if !self.peek_word(next, "inherit") {
                        return Ok((href, None, next));
                    }
                    match self.symbol(next + 1, '=') {
                        Err(error) => Err(error),
                        Ok(equals) => match self.identifier(equals) {
                            Err(error) => Err(error),
                            Ok((prefix, end)) => match resolve_namespace(
                                &self.context.namespaces,
                                prefix.as_str(),
                                "unknown inherited namespace prefix",
                            ) {
                                Err(error) => Err(error),
                                Ok(uri) => Ok((href, Some(uri), end)),
                            },
                        },
                    }
                },
            },
        }
    }

    /// Reads the parameters of a datatype up to the closing brace.
    fn params(&self, start: usize) -> (r: Result<(Vec<Param>, usize), ParseError>)
        ensures
            match r {
                Ok((params, end)) => read_params(
                    self.toks(),
                    start as nat,
                    self.ctx(),
                    Seq::empty(),
                ) == Ok::<(Seq<ParamModel>, nat), Text>((params_of(params@), end as nat)) && start
                    <= end < self.tokens@.len(),
                Err(error) => read_params(self.toks(), start as nat, self.ctx(), Seq::empty())
                    == Err::<(Seq<ParamModel>, nat), Text>(error@),
            },
    {
        let mut params: Vec<Param> = Vec::new();
        let mut pos: usize = start;
        assert(params_of(params@) =~= Seq::<ParamModel>::empty());
        while !self.peek_symbol(pos, '}')
            invariant
                start <= pos,
                read_params(self.toks(), start as nat, self.ctx(), Seq::empty()) == read_params(
                    self.toks(),
                    pos as nat,
                    self.ctx(),
                    params_of(params@),
                ),
            decreases remaining(self.toks(), pos as nat),
        {
            match self.identifier(pos) {
                Err(error) => {
                    return Err(error);
                },
                Ok((name, next)) => match self.symbol(next, '=') {
                    Err(error) => {
                        return Err(error);
                    },
                    Ok(equals) => match self.string(equals) {
                        Err(error) => {
                            return Err(error);
                        },
                        Ok((value, end)) => {
                            let param = Param { name, value, context: self.context.duplicate() };
                            let ghost before = params_of(params@);
                            params.push(param);
                            assert(params_of(params@) =~= before.push(param@));
                            pos = end;
                        },
                    },
                },
            }
        }
        Ok((params, pos))
    }

    /// A datatype without parameters or exceptions.
    fn simple_data(&self, datatype: String, datatype_library: Option<String>) -> (r: Pattern)
        ensures
            r@ == plain_data(datatype@, opt_text(datatype_library), self.ctx()),
    {
        let r = Pattern::Data {
            datatype,
            datatype_library,
            params: Vec::new(),
            except: Vec::new(),
            context: self.context.duplicate(),
        };
        proof {
            r.lemma_model();
            assert(patterns_of(r->Data_except@) =~= Seq::<PatternModel>::empty());
            assert(params_of(r->Data_params@) =~= Seq::<ParamModel>::empty());
        }
        r
    }

    /// Reads what follows a name that starts a pattern; see [`read_named`].
    fn named(&self, pos: usize, name: String) -> (r: Result<(Pattern, usize), ParseError>)
        ensures
            match r {
                Ok((pattern, end)) => read_named(self.toks(), pos as nat, self.ctx(), name@) == Ok::<
                    (PatternModel, nat),
                    Text,
                >((pattern@, end as nat)) && pos <= end,
                Err(error) => read_named(self.toks(), pos as nat, self.ctx(), name@) == Err::<
                    (PatternModel, nat),
                    Text,
                >(error@),
            },
        decreases remaining(self.toks(), pos as nat), 1nat,
    {
        if self.peek_literal(pos) {
            return match self.string(pos) {
                Err(error) => Err(error),
                Ok((value, end)) => {
                    let (datatype, datatype_library) = self.datatype_parts(name.as_str());
                    let pattern = Pattern::Value {
                        value,
                        datatype: Some(datatype),
                        datatype_library,
                        namespace: None,
                        context: self.context.duplicate(),
                    };
                    proof {
                        pattern.lemma_model();
                    }
                    Ok((pattern, end))
                },
            };
        }
        if self.peek_symbol(pos, '{') {
            return match self.params(pos + 1) {
                Err(error) => Err(error),
                Ok((params, brace)) => {
                    let (datatype, datatype_library) = self.datatype_parts(name.as_str());
                    if self.peek_symbol(brace + 1, '-') {
                        match self.pattern(brace + 2) {
                            Err(error) => Err(error),
                            Ok((except, end)) => {
                                let pattern = Pattern::Data {
                                    datatype,
                                    datatype_library,
                                    params,
                                    except: single(except),
                                    context: self.context.duplicate(),
                                };
                                proof {
                                    pattern.lemma_model();
                                }
                                Ok((pattern, end))
                            },
                        }
                    } else {
                        let pattern = Pattern::Data {
                            datatype,
                            datatype_library,
                            params,
                            except: Vec::new(),
                            context: self.context.duplicate(),
                        };
                        proof {
                            pattern.lemma_model();
                            assert(patterns_of(pattern->Data_except@) =~= Seq::<
                                PatternModel,
                            >::empty());
                        }
                        Ok((pattern, brace + 1))
                    }
                },
            };
        }
        let chars = to_chars(name.as_str());
        if find(chars.as_slice(), ':') < chars.len() {
            let (datatype, datatype_library) = self.datatype_parts(name.as_str());
            return Ok((self.simple_data(datatype, datatype_library), pos));
        }
        if same(name.as_str(), "string") || same(name.as_str(), "token") {
            return Ok((self.simple_data(name, Some(String::new())), pos));
        }
        Ok((Pattern::Ref(name), pos))
    }

    /// Reads a pattern without operators; see [`read_primary`].
    fn primary(&self, pos: usize) -> (r: Result<(Pattern, usize), ParseError>)
        ensures
            reads(r, read_primary(self.toks(), pos as nat, self.ctx()), pos),
        decreases remaining(self.toks(), pos as nat), 3nat,
    {
        if self.peek_symbol(pos, '(') {
            return match self.pattern(pos + 1) {
                Err(error) => Err(error),
                Ok((value, next)) => match self.symbol(next, ')') {
                    Err(error) => Err(error),
                    Ok(end) => Ok((value, end)),
                },
            };
        }
        if self.peek_word(pos, "element") {
            return match self.name_class(pos + 1, false) {
                Err(error) => Err(error),
                Ok((name, next)) => match self.braced(next) {
                    Err(error) => Err(error),
                    Ok((body, end)) => {
                        let pattern = Pattern::Element {
                            name,
                            body: single(body),
                            context: self.context.duplicate(),
                        };
                        proof {
                            pattern.lemma_model();
                        }
                        Ok((pattern, end))
                    },
                },
            };
        }
        if self.peek_word(pos, "attribute") {
            return match self.name_class(pos + 1, true) {
                Err(error) => Err(error),
                Ok((name, next)) => match self.braced(next) {
                    Err(error) => Err(error),
                    Ok((body, end)) => {
                        let pattern = Pattern::Attribute {
                            name,
                            body: single(body),
                            context: self.context.duplicate(),
                        };
                        proof {
                            pattern.lemma_model();
                        }
                        Ok((pattern, end))
                    },
                },
            };
        }
        if self.peek_word(pos, "list") {
            return match self.braced(pos + 1) {
                Err(error) => Err(error),
                Ok((body, end)) => {
                    let pattern = Pattern::List(single(body));
                    proof {
                        pattern.lemma_model();
                    }
                    Ok((pattern, end))
                },
            };
        }
        if self.peek_word(pos, "mixed") {
            return match self.braced(pos + 1) {
                Err(error) => Err(error),
                Ok((body, end)) => {
                    let pattern = Pattern::Mixed(single(body));
                    proof {
                        pattern.lemma_model();
                    }
                    Ok((pattern, end))
                },
            };
        }
        if self.peek_word(pos, "grammar") {
            return match self.grammar(pos + 1) {
                Err(error) => Err(error),
                Ok((grammar, end)) => Ok((Pattern::Grammar(grammar), end)),
            };
        }
        if self.peek_word(pos, "external") {
            return match self.href_and_inherit_namespace(pos, "external") {
                Err(error) => Err(error),
                Ok((href, inherit_namespace, end)) => {
                    let context = self.reference_context(&inherit_namespace);
                    let pattern = Pattern::ExternalRef { href, inherit_namespace, context };
                    proof {
                        pattern.lemma_model();
                    }
                    Ok((pattern, end))
                },
            };
        }
        if self.peek_word(pos, "parent") {
            return match self.identifier(pos + 1) {
                Err(error) => Err(error),
                Ok((name, end)) => Ok((Pattern::ParentRef(name), end)),
            };
        }
        if self.peek_word(pos, "empty") {
            return Ok((Pattern::Empty, pos + 1));
        }
        if self.peek_word(pos, "text") {
            return Ok((Pattern::Text, pos + 1));
        }
        if self.peek_word(pos, "notAllowed") {
            return Ok((Pattern::NotAllowed, pos + 1));
        }
        if self.peek_literal(pos) {
            return match self.string(pos) {
                Err(error) => Err(error),
                Ok((value, end)) => {
                    let pattern = Pattern::Value {
                        value,
                        datatype: None,
                        datatype_library: None,
                        namespace: None,
                        context: self.context.duplicate(),
                    };
                    proof {
                        pattern.lemma_model();
                    }
                    Ok((pattern, end))
                },
            };
        }
        match self.identifier(pos) {
            Err(error) => Err(error),
            Ok((name, next)) => self.named(next, name),
        }
    }

    /// Reads a grammar in braces.
    fn grammar(&self, pos: usize) -> (r: Result<(Grammar, usize), ParseError>)
        ensures
            reads(r, read_grammar(self.toks(), pos as nat, self.ctx()), pos),
        decreases remaining(self.toks(), pos as nat), 2nat,
    {
        match self.braced_items(pos) {
            Err(error) => Err(error),
            Ok((items, end)) => {
                let grammar = Grammar { context: self.context.duplicate(), items };
                proof {
                    grammar.lemma_model();
                }
                Ok((grammar, end))
            },
        }
    }

    /// Reads grammar components in braces.
    fn braced_items(&self, pos: usize) -> (r: Result<(Vec<GrammarItem>, usize), ParseError>)
        ensures
            match r {
                Ok((items, end)) => read_braced_items(self.toks(), pos as nat, self.ctx()) == Ok::<
                    (Seq<ItemModel>, nat),
                    Text,
                >((items_of(items@), end as nat)) && pos < end,
                Err(error) => read_braced_items(self.toks(), pos as nat, self.ctx()) == Err::<
                    (Seq<ItemModel>, nat),
                    Text,
                >(error@),
            },
        decreases remaining(self.toks(), pos as nat), 1nat,
    {
        match self.symbol(pos, '{') {
            Err(error) => Err(error),
            Ok(start) => match self.grammar_contents(start, true) {
                Err(error) => Err(error),
                Ok((items, next)) => match self.symbol(next, '}') {
                    Err(error) => Err(error),
                    Ok(end) => Ok((items, end)),
                },
            },
        }
    }

    /// Reads how definitions combine.
    fn combine(&self, pos: usize) -> (r: Result<(Option<Combine>, usize), ParseError>)
        ensures
            match r {
                Ok((combine, end)) => read_combine(self.toks(), pos as nat) == Ok::<
                    (Option<Combine>, nat),
                    Text,
                >((combine, end as nat)) && pos < end,
                Err(error) => read_combine(self.toks(), pos as nat) == Err::<
                    (Option<Combine>, nat),
                    Text,
                >(error@),
            },
    {
        if self.peek_symbol(pos, '|') {
            match self.symbol(pos + 1, '=') {
                Err(error) => Err(error),
                Ok(end) => Ok((Some(Combine::Choice), end)),
            }
        } else if self.peek_symbol(pos, '&') {
            match self.symbol(pos + 1, '=') {
                Err(error) => Err(error),
                Ok(end) => Ok((Some(Combine::Interleave), end)),
            }
        } else {
            match self.symbol(pos, '=') {
                Err(error) => Err(error),
                Ok(end) => Ok((None, end)),
            }
        }
    }

    /// Reads a definition.
    fn definition(&self, pos: usize) -> (r: Result<(GrammarItem, usize), ParseError>)
        ensures
            reads(r, read_definition(self.toks(), pos as nat, self.ctx()), pos),
        decreases remaining(self.toks(), pos as nat), 1nat,
    {
        match self.identifier(pos) {
            Err(error) => Err(error),
            Ok((name, next)) => match self.combine(next) {
                Err(error) => Err(error),
                Ok((combine, start)) => match self.pattern(start) {
                    Err(error) => Err(error),
                    Ok((body, end)) => {
                        let body = single(body);
                        let item = if same(name.as_str(), "start") {
                            GrammarItem::Start { combine, body }
                        } else {
                            GrammarItem::Define { name, combine, body }
                        };
                        proof {
                            item.lemma_model();
                        }
                        Ok((item, end))
                    },
                },
            },
        }
    }

    /// Reads a grammar component.
    fn grammar_item(&self, pos: usize) -> (r: Result<(GrammarItem, usize), ParseError>)
        ensures
            reads(r, read_item(self.toks(), pos as nat, self.ctx()), pos),
        decreases remaining(self.toks(), pos as nat), 2nat,
    {
        if self.peek_word(pos, "div") {
            return match self.braced_items(pos + 1) {
                Err(error) => Err(error),
                Ok((items, end)) => {
                    let item = GrammarItem::Div(items);
                    proof {
                        item.lemma_model();
                    }
                    Ok((item, end))
                },
            };
        }
        if self.peek_word(pos, "include") {
            return match self.href_and_inherit_namespace(pos, "include") {
                Err(error) => Err(error),
                Ok((href, inherit_namespace, next)) => {
                    if self.peek_symbol(next, '{') {
                        match self.braced_items(next) {
                            Err(error) => Err(error),
                            Ok((body, end)) => {
                                let context = self.reference_context(&inherit_namespace);
                                let item = GrammarItem::Include {
                                    href,
                                    inherit_namespace,
                                    body,
                                    context,
                                };
                                proof {
                                    item.lemma_model();
                                }
                                Ok((item, end))
                            },
                        }
                    } else {
                        let context = self.reference_context(&inherit_namespace);
                        let item = GrammarItem::Include {
                            href,
                            inherit_namespace,
                            body: Vec::new(),
                            context,
                        };
                        proof {
                            item.lemma_model();
                            assert(items_of(item->Include_body@) =~= Seq::<ItemModel>::empty());
                        }
                        Ok((item, next))
                    }
                },
            };
        }
        self.definition(pos)
    }

    /// Reads grammar components up to the end or, in braces, the closing brace; see
    /// [`read_items`].
    fn grammar_contents(&self, start: usize, braces: bool) -> (r: Result<
        (Vec<GrammarItem>, usize),
        ParseError,
    >)
        ensures
            match r {
                Ok((items, end)) => read_items(
                    self.toks(),
                    start as nat,
                    self.ctx(),
                    braces,
                    Seq::empty(),
                ) == Ok::<(Seq<ItemModel>, nat), Text>((items_of(items@), end as nat)) && start
                    <= end,
                Err(error) => read_items(
                    self.toks(),
                    start as nat,
                    self.ctx(),
                    braces,
                    Seq::empty(),
                ) == Err::<(Seq<ItemModel>, nat), Text>(error@),
            },
        decreases remaining(self.toks(), start as nat), 3nat,
    {
        let mut items: Vec<GrammarItem> = Vec::new();
        let mut pos: usize = start;
        assert(items_of(items@) =~= Seq::<ItemModel>::empty());
        while !(self.peek_end(pos) || (braces && self.peek_symbol(pos, '}')))
            invariant
                start <= pos,
                read_items(self.toks(), start as nat, self.ctx(), braces, Seq::empty())
                    == read_items(
                    self.toks(),
                    pos as nat,
                    self.ctx(),
                    braces,
                    items_of(items@),
                ),
            decreases remaining(self.toks(), pos as nat),
        {
            match self.skip_annotations(pos) {
                Err(error) => {
                    return Err(error);
                },
                Ok(next) => {
                    if braces && self.peek_symbol(next, '}') {
                        return Ok((items, next));
                    }
                    proof {
                        lemma_after_annotations(self.toks(), pos as nat);
                    }
                    match self.grammar_item(next) {
                        Err(error) => {
                            return Err(error);
                        },
                        Ok((item, end)) => {
                            let ghost before = items_of(items@);
                            items.push(item);
                            assert(items_of(items@) =~= before.push(item@));
                            pos = end;
                        },
                    }
                },
            }
        }
        Ok((items, pos))
    }

    /// Reads a declaration, which changes the context.
    fn declaration(&mut self, pos: usize) -> (r: Result<usize, ParseError>)
        ensures
            final(self).toks() == old(self).toks(),
            match r {
                Ok(end) => read_declaration(old(self).toks(), pos as nat, old(self).ctx()) == Ok::<
                    (ContextModel, nat),
                    Text,
                >((final(self).ctx(), end as nat)) && pos < end,
                Err(error) => read_declaration(old(self).toks(), pos as nat, old(self).ctx())
                    == Err::<(ContextModel, nat), Text>(error@),
            },
    {
        if self.peek_word(pos, "namespace") || self.peek_word(pos, "datatypes") {
            return match self.identifier(pos + 1) {
                Err(error) => Err(error),
                Ok((prefix, next)) => match self.symbol(next, '=') {
                    Err(error) => Err(error),
                    Ok(equals) => match self.string(equals) {
                        Err(error) => Err(error),
                        Ok((uri, end)) => {
                            self.context.namespaces.insert(prefix, uri);
                            Ok(end)
                        },
                    },
                },
            };
        }
        match self.word(pos, "default") {
            Err(error) => Err(error),
            Ok(second) => match self.word(second, "namespace") {
                Err(error) => Err(error),
                Ok(third) => {
                    let start: usize = if self.peek_any_word(third) {
                        third + 1
                    } else {
                        third
                    };
                    match self.symbol(start, '=') {
                        Err(error) => Err(error),
                        Ok(equals) => match self.string(equals) {
                            Err(error) => Err(error),
                            Ok((uri, end)) => {
                                self.context.ns = Some(uri.clone());
                                self.context.default_namespace = Some(uri);
                                Ok(end)
                            },
                        },
                    }
                },
            },
        }
    }

    /// Whether a definition is next.
    fn looks_like_definition(&self, pos: usize) -> (r: bool)
        ensures
            r == definition_at(self.toks(), pos as nat),
    {
        self.peek_any_word(pos) && (self.peek_symbol(pos + 1, '=') || self.peek_symbol(
            pos + 1,
            '|',
        ) || self.peek_symbol(pos + 1, '&'))
    }

    /// Reads the body of a schema; see [`read_body`].
    fn body(&self, pos: usize) -> (r: Result<(Root, usize), ParseError>)
        ensures
            match r {
                Ok((root, end)) => read_body(self.toks(), pos as nat, self.ctx()) == Ok::<
                    (RootModel, nat),
                    Text,
                >((root@, end as nat)),
                Err(error) => read_body(self.toks(), pos as nat, self.ctx()) == Err::<
                    (RootModel, nat),
                    Text,
                >(error@),
            },
    {
        if self.peek_word(pos, "grammar") {
            return match self.grammar(pos + 1) {
                Err(error) => Err(error),
                Ok((grammar, end)) => Ok((Root::Grammar(grammar), end)),
            };
        }
        if self.peek_word(pos, "start") || self.peek_word(pos, "include") || self.peek_word(
            pos,
            "div",
        ) || self.looks_like_definition(pos) {
            return match self.grammar_contents(pos, false) {
                Err(error) => Err(error),
                Ok((items, end)) => {
                    let grammar = Grammar { context: self.context.duplicate(), items };
                    proof {
                        grammar.lemma_model();
                    }
                    Ok((Root::Grammar(grammar), end))
                },
            };
        }
        match self.pattern(pos) {
            Err(error) => Err(error),
            Ok((pattern, end)) => Ok((Root::Pattern(pattern), end)),
        }
    }

    /// Reads a whole schema; see [`read_schema`].
    fn parse(self) -> (r: Result<SchemaDocument, ParseError>)
        ensures
            match r {
                Ok(document) => read_schema(self.toks(), self.ctx()) == Ok::<RootModel, Text>(
                    document@,
                ),
                Err(error) => read_schema(self.toks(), self.ctx()) == Err::<RootModel, Text>(
                    error@,
                ),
            },
    {
        let mut parser = self;
        let ghost s = parser.toks();
        let ghost first = parser.ctx();
        let mut pos: usize = 0;
        match parser.skip_annotations(0) {
            Err(error) => {
                return Err(error);
            },
            Ok(next) => {
                pos = next;
            },
        }
        let ghost start = pos as nat;
        while parser.peek_word(pos, "namespace") || parser.peek_word(pos, "default")
            || parser.peek_word(pos, "datatypes")
            invariant
                s == self.toks(),
                first == self.ctx(),
                after_annotations(s, 0) == Ok::<nat, Text>(start),
                parser.toks() == s,
                read_declarations(s, start, first) == read_declarations(
                    s,
                    pos as nat,
                    parser.ctx(),
                ),
            decreases remaining(s, pos as nat),
        {
            match parser.declaration(pos) {
                Err(error) => {
                    return Err(error);
                },
                Ok(next) => match parser.skip_annotations(next) {
                    Err(error) => {
                        return Err(error);
                    },
                    Ok(end) => {
                        pos = end;
                    },
                },
            }
        }
        match parser.body(pos) {
            Err(error) => Err(error),
            Ok((root, end)) => {
                if parser.peek_end(end) {
                    Ok(SchemaDocument { root })
                } else {
                    Err(ParseError::new("unexpected trailing compact syntax"))
                }
            },
        }
    }
}

/// Parses a schema in the compact syntax; see [`compact_schema`].
pub fn parse_compact(source: &SchemaSource, inherited_ns: Option<String>) -> (r: Result<
    SchemaDocument,
    ParseError,
>)
    ensures
        match r {
            Ok(document) => compact_schema(
                source@.text,
                source@.base_uri,
                opt_text(inherited_ns),
            ) == Ok::<RootModel, Text>(document@),
            Err(error) => compact_schema(
                source@.text,
                source@.base_uri,
                opt_text(inherited_ns),
            ) == Err::<RootModel, Text>(error@),
        },
{
    let mut context = initial_context(source, None, copy_opt(&inherited_ns));
    context.default_namespace = inherited_ns;
    context.namespaces.insert(
        "xml".to_owned(),
        "http://www.w3.org/XML/1998/namespace".to_owned(),
    );
    context.namespaces.insert(
        "xsd".to_owned(),
        "http://www.w3.org/2001/XMLSchema-datatypes".to_owned(),
    );
    let chars = to_chars(source.text());
    match decode_unicode_escapes(&chars) {
        Err(message) => Err(ParseError::from_string(message)),
        Ok(plain) => match lex(&plain) {
            Err(message) => Err(ParseError::from_string(message)),
            Ok(tokens) => CompactParser { tokens, context }.parse(),
        },
    }
}

} // verus!
