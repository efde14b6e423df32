//! The lexical layer of the compact syntax: `\x{...}` escapes, and then tokens.
use vstd::prelude::*;
use vstd::slice::slice_subrange;

use crate::numbers::{parse_digits, unsigned};
use crate::text::{from_chars, hex_digit, is_hex_digit, is_white_space, white_space, Text};

verus! {

/// `char::from_u32` gives the character with a number, for every Unicode scalar value and
/// for no other number.
pub assume_specification[ char::from_u32 ](i: u32) -> (r: Option<char>)
    ensures
        match r {
            Some(c) => scalar_value(i as nat) && c == i as char,
            None => !scalar_value(i as nat),
        },
;

/// Whether a number is a Unicode scalar value.
pub open spec fn scalar_value(n: nat) -> bool {
    n < 0xd800 || 0xe000 <= n <= 0x10ffff
}

// ---------------------------------------------------------------------
// Escapes
// ---------------------------------------------------------------------

/// The first index from `i` on that holds no hexadecimal digit.
pub open spec fn hex_end(t: Text, i: int) -> int
    decreases t.len() - i,
{
    if 0 <= i < t.len() && hex_digit(t[i]) {
        hex_end(t, i + 1)
    } else {
        i
    }
}

/// `hex_end` does not go back.
pub proof fn lemma_hex_end(t: Text, i: int)
    requires
        0 <= i,
    ensures
        hex_end(t, i) >= i,
        i <= t.len() ==> hex_end(t, i) <= t.len(),
        forall|j: int| i <= j < hex_end(t, i) ==> hex_digit(#[trigger] t[j]),
    decreases t.len() - i,
{
    if i < t.len() && hex_digit(t[i]) {
        lemma_hex_end(t, i + 1);
    }
}

/// The text from `i` on with its escapes replaced, after what is there already: `\x{n}`
/// stands for the character with the hexadecimal number `n`.
pub open spec fn unescaped_from(t: Text, i: int, out: Text) -> Result<Text, Text>
    decreases t.len() - i,
{
    if i < 0 || i >= t.len() {
        Ok(out)
    } else if t[i] != '\\' || i + 1 >= t.len() || t[i + 1] != 'x' {
        unescaped_from(t, i + 1, out.push(t[i]))
    } else if i + 2 >= t.len() || t[i + 2] != '{' {
        Err("expected `{` after `\\x`"@)
    } else {
        let end = hex_end(t, i + 3);
        proof {
            lemma_hex_end(t, i + 3);
        }
        if end >= t.len() || t[end] != '}' {
            Err("invalid Unicode escape in compact syntax"@)
        } else {
            match unsigned(t.subrange(i + 3, end), 16, 0xffff_ffff) {
                None => Err("invalid Unicode escape in compact syntax"@),
                Some(n) => if scalar_value(n) {
                    unescaped_from(t, end + 1, out.push(n as char))
                } else {
                    Err("invalid Unicode scalar value in compact syntax"@)
                },
            }
        }
    }
}

/// The text with its escapes replaced.
pub open spec fn unescaped(t: Text) -> Result<Text, Text> {
    unescaped_from(t, 0, Seq::empty())
}

/// Replaces every `\x{...}` escape by the character that it stands for.
pub fn decode_unicode_escapes(t: &Vec<char>) -> (r: Result<Vec<char>, String>)
    ensures
        match r {
            Ok(out) => unescaped(t@) == Ok::<Text, Text>(out@),
            Err(message) => unescaped(t@) == Err::<Text, Text>(message@),
        },
{
    let mut out: Vec<char> = Vec::new();
    let mut i: usize = 0;
    while i < t.len()
        invariant
            i <= t.len(),
            unescaped(t@) == unescaped_from(t@, i as int, out@),
        decreases t.len() - i,
    {
        if t[i] != '\\' || i + 1 >= t.len() || t[i + 1] != 'x' {
            out.push(t[i]);
            i += 1;
            continue;
        }
        if i + 2 >= t.len() || t[i + 2] != '{' {
            return Err("expected `{` after `\\x`".to_owned());
        }
        let start: usize = i + 3;
        let mut end: usize = start;
        while end < t.len() && is_hex_digit(t[end])
            invariant
                start <= end <= t.len(),
                hex_end(t@, start as int) == hex_end(t@, end as int),
            decreases t.len() - end,
        {
            end += 1;
        }
        if end >= t.len() || t[end] != '}' {
            return Err("invalid Unicode escape in compact syntax".to_owned());
        }
        let digits = slice_subrange(t.as_slice(), start, end);
        match parse_digits(digits, 16, 0xffff_ffff) {
            None => {
                return Err("invalid Unicode escape in compact syntax".to_owned());
            },
            Some(n) => {
                match char::from_u32(n as u32) {
                    None => {
                        return Err("invalid Unicode scalar value in compact syntax".to_owned());
                    },
                    Some(c) => {
                        assert(c == n as char);
                        out.push(c);
                    },
                }
            },
        }
        i = end + 1;
    }
    Ok(out)
}

// ---------------------------------------------------------------------
// Tokens
// ---------------------------------------------------------------------

/// A token of the compact syntax.
#[derive(Clone, Debug)]
pub enum Token {
    /// A keyword or a name.
    Word(String),
    /// A string literal.
    Literal(String),
    /// A punctuation mark.
    Symbol(char),
    /// The end of the text.
    End,
}

/// The model of a [`Token`].
#[verifier::ext_equal]
pub enum TokenModel {
    Word(Text),
    Literal(Text),
    Symbol(char),
    End,
}

impl View for Token {
    type V = TokenModel;

    open spec fn view(&self) -> TokenModel {
        match self {
            Token::Word(value) => TokenModel::Word(value@),
            Token::Literal(value) => TokenModel::Literal(value@),
            Token::Symbol(symbol) => TokenModel::Symbol(*symbol),
            Token::End => TokenModel::End,
        }
    }
}

/// The models of tokens.
pub open spec fn tokens_of(s: Seq<Token>) -> Seq<TokenModel> {
    Seq::new(s.len(), |i: int| s[i]@)
}

/// The punctuation marks.
pub open spec fn punctuation(c: char) -> bool {
    c == '{' || c == '}' || c == '(' || c == ')' || c == '[' || c == ']' || c == ',' || c == '|'
        || c == '&' || c == '?' || c == '*' || c == '+' || c == '-' || c == '='
}

/// What ends a word: white space, a quotation mark, a comment, and every punctuation mark
/// but the hyphen, which is part of names.
pub open spec fn ends_word(c: char) -> bool {
    white_space(c) || (punctuation(c) && c != '-') || c == '"' || c == '#'
}

/// The first index from `i` on that holds a line feed, or the length.
pub open spec fn line_end(t: Text, i: int) -> int
    decreases t.len() - i,
{
    if 0 <= i < t.len() && t[i] != '\n' {
        line_end(t, i + 1)
    } else {
        i
    }
}

/// The first index from `i` on that ends a word, or the length.
pub open spec fn word_end(t: Text, i: int) -> int
    decreases t.len() - i,
{
    if 0 <= i < t.len() && !ends_word(t[i]) {
        word_end(t, i + 1)
    } else {
        i
    }
}

/// The string literal whose text goes on at `i`, after what is there already, and the
/// index behind its closing quotation mark. A backslash stands for the character after it.
pub open spec fn literal_from(t: Text, i: int, value: Text) -> Result<(Text, int), Text>
    decreases t.len() - i,
{
    if i < 0 || i >= t.len() {
        Err("unterminated string literal"@)
    } else if t[i] == '"' {
        Ok((value, i + 1))
    } else if t[i] == '\\' {
        if i + 1 < t.len() {
            literal_from(t, i + 2, value.push(t[i + 1]))
        } else {
            Err("unterminated escape"@)
        }
    } else {
        literal_from(t, i + 1, value.push(t[i]))
    }
}

/// `line_end` does not go back.
pub proof fn lemma_line_end(t: Text, i: int)
    ensures
        line_end(t, i) >= i,
        i <= t.len() ==> line_end(t, i) <= t.len(),
    decreases t.len() - i,
{
    if 0 <= i < t.len() && t[i] != '\n' {
        lemma_line_end(t, i + 1);
    }
}

/// `word_end` does not go back.
pub proof fn lemma_word_end(t: Text, i: int)
    ensures
        word_end(t, i) >= i,
        i <= t.len() ==> word_end(t, i) <= t.len(),
    decreases t.len() - i,
{
    if 0 <= i < t.len() && !ends_word(t[i]) {
        lemma_word_end(t, i + 1);
    }
}

/// A literal ends behind where it goes on.
pub proof fn lemma_literal_from(t: Text, i: int, value: Text)
    ensures
        literal_from(t, i, value) matches Ok((v, end)) ==> i < end <= t.len(),
    decreases t.len() - i,
{
    if 0 <= i < t.len() && t[i] != '"' {
        if t[i] == '\\' {
            if i + 1 < t.len() {
                lemma_literal_from(t, i + 2, value.push(t[i + 1]));
            }
        } else {
            lemma_literal_from(t, i + 1, value.push(t[i]));
        }
    }
}

/// The tokens of the text from `i` on, after those that are there already.
pub open spec fn lexed_from(t: Text, i: int, out: Seq<TokenModel>) -> Result<Seq<TokenModel>, Text>
    decreases t.len() - i,
{
    if i < 0 || i >= t.len() {
        Ok(out.push(TokenModel::End))
    } else if white_space(t[i]) {
        lexed_from(t, i + 1, out)
    } else if t[i] == '#' {
        proof {
            lemma_line_end(t, i + 1);
        }
        lexed_from(t, line_end(t, i + 1), out)
    } else if t[i] == '"' {
        match literal_from(t, i + 1, Seq::empty()) {
            Err(message) => Err(message),
            Ok((value, end)) => {
                proof {
                    lemma_literal_from(t, i + 1, Seq::empty());
                }
                lexed_from(t, end, out.push(TokenModel::Literal(value)))
            },
        }
    } else if punctuation(t[i]) {
        lexed_from(t, i + 1, out.push(TokenModel::Symbol(t[i])))
    } else {
        proof {
            lemma_word_end(t, i + 1);
        }
        let end = word_end(t, i + 1);
        lexed_from(t, end, out.push(TokenModel::Word(t.subrange(i, end))))
    }
}

/// The tokens of a text, with the end last.
pub open spec fn lexed(t: Text) -> Result<Seq<TokenModel>, Text> {
    lexed_from(t, 0, Seq::empty())
}

/// Whether a character is a punctuation mark.
fn is_punctuation(c: char) -> (r: bool)
    ensures
        r == punctuation(c),
{
    c == '{' || c == '}' || c == '(' || c == ')' || c == '[' || c == ']' || c == ',' || c == '|'
        || c == '&' || c == '?' || c == '*' || c == '+' || c == '-' || c == '='
}

/// Reads a string literal whose text starts at `start`; see [`literal_from`].
fn lex_literal(t: &Vec<char>, start: usize) -> (r: Result<(String, usize), String>)
    requires
        start <= t@.len(),
    ensures
        match r {
            Ok((value, end)) => literal_from(t@, start as int, Seq::empty()) == Ok::<
                (Text, int),
                Text,
            >((value@, end as int)) && start < end <= t@.len(),
            Err(message) => literal_from(t@, start as int, Seq::empty()) == Err::<
                (Text, int),
                Text,
            >(message@),
        },
{
    let mut value = String::new();
    let mut i: usize = start;
    assert(value@ =~= Seq::<char>::empty());
    loop
        invariant
            start <= i <= t@.len(),
            literal_from(t@, start as int, Seq::empty()) == literal_from(t@, i as int, value@),
        decreases t@.len() - i,
    {
        if i >= t.len() {
            return Err("unterminated string literal".to_owned());
        }
        let c = t[i];
        if c == '"' {
            return Ok((value, i + 1));
        }
        if c == '\\' {
            if i + 1 < t.len() {
                value.push(t[i + 1]);
                i += 2;
            } else {
                return Err("unterminated escape".to_owned());
            }
        } else {
            value.push(c);
            i += 1;
        }
    }
}

/// Splits a text into tokens. A name may hold hyphens, so only a hyphen that does not
/// continue a word is a token of its own.
pub fn lex(t: &Vec<char>) -> (r: Result<Vec<Token>, String>)
    ensures
        match r {
            Ok(tokens) => lexed(t@) == Ok::<Seq<TokenModel>, Text>(tokens_of(tokens@)),
            Err(message) => lexed(t@) == Err::<Seq<TokenModel>, Text>(message@),
        },
{
    let mut out: Vec<Token> = Vec::new();
    let mut i: usize = 0;
    assert(tokens_of(out@) =~= Seq::<TokenModel>::empty());
    while i < t.len()
        invariant
            i <= t.len(),
            lexed(t@) == lexed_from(t@, i as int, tokens_of(out@)),
        decreases t.len() - i,
    {
        let c = t[i];
        let ghost before = tokens_of(out@);
        if is_white_space(c) {
            i += 1;
        } else if c == '#' {
            let start: usize = i + 1;
            i += 1;
            while i < t.len() && t[i] != '\n'
                invariant
                    start <= i <= t.len(),
                    line_end(t@, start as int) == line_end(t@, i as int),
                decreases t.len() - i,
            {
                i += 1;
            }
        } else if c == '"' {
            match lex_literal(t, i + 1) {
                Err(message) => {
                    return Err(message);
                },
                Ok((value, end)) => {
                    let token = Token::Literal(value);
                    out.push(token);
                    assert(tokens_of(out@) =~= before.push(token@));
                    i = end;
                },
            }
        } else if is_punctuation(c) {
            out.push(Token::Symbol(c));
            assert(tokens_of(out@) =~= before.push(TokenModel::Symbol(c)));
            i += 1;
        } else {
            let start: usize = i;
            let mut end: usize = i + 1;
            while end < t.len() && !(is_white_space(t[end]) || (is_punctuation(t[end]) && t[end]
                != '-') || t[end] == '"' || t[end] == '#')
                invariant
                    start < end <= t.len(),
                    word_end(t@, start + 1) == word_end(t@, end as int),
                decreases t.len() - end,
            {
                end += 1;
            }
            let word = from_chars(slice_subrange(t.as_slice(), start, end));
            let token = Token::Word(word);
            out.push(token);
            assert(tokens_of(out@) =~= before.push(token@));
            i = end;
        }
    }
    let ghost before = tokens_of(out@);
    out.push(Token::End);
    assert(tokens_of(out@) =~= before.push(TokenModel::End));
    Ok(out)
}

} // verus!
