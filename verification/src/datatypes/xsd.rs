//! The XML Schema datatype library: the primitive datatypes, those that are built in as
//! derived from them, and the facets that apply to each.
//!
//! Some things are simplified on purpose. Dates and times with a timezone are compared as
//! UTC, those without one component by component. Durations are compared with months of
//! thirty days and years of 365. A `pattern` is written in the dialect of the `regex`
//! crate.
use vstd::prelude::*;

use super::binary64::{compared, literal, parse_literal, Double, Float, Order};
use super::decimal::{
    decimal_of, decimal_order, lemma_equal_at, whole_value, Decimal, DecimalModel,
};
use super::duration::{duration_of, duration_seconds, Duration, DurationModel};
use super::registry::{
    pairs, problem, resolved, Bindings, DatatypeContext, DatatypeLibrary, LibraryModel,
};
use super::temporal::{temporal_of, temporal_seconds, Temporal, TemporalModel, TemporalShape};
use crate::numbers::{natural, parse_natural};
use crate::syntax::{continue_flags, is_ncname, ncname, xid_continue, xid_start};
use crate::text::{
    ascii_alphanumeric, ascii_letter, char_vecs, collapse, collapse_whitespace, concat2, concat3,
    concat5, copy_chars, from_chars, hex_digit, is_ascii_alphanumeric, is_ascii_letter,
    is_hex_digit, is_white_space, opt_text, same, same_chars, spells, split_at_first, split_once,
    split_tokens, to_chars, tokens, trim, trimmed, white_space, Text,
};

verus! {

// ---------------------------------------------------------------------
// The datatypes
// ---------------------------------------------------------------------

/// The family of lexical forms and values that a datatype shares with its peers.
#[derive(Clone, Copy, PartialEq, Eq, Structural)]
pub enum TypeKind {
    /// Texts, which differ in how whitespace counts and in what else is asked of them.
    StringLike(StringShape),
    /// Lists of texts, separated by whitespace.
    ListOf(StringShape),
    /// Truth values.
    Boolean,
    /// Decimal numbers.
    Decimal {
        /// Whether a fraction is ruled out.
        integer_only: bool,
        /// The least value.
        min: Option<i128>,
        /// The greatest value.
        max: Option<i128>,
    },
    /// Numbers in binary floating point of single precision, held in double precision.
    Float,
    /// Numbers in binary floating point of double precision.
    Double,
    /// Durations.
    Duration,
    /// Dates and times.
    Temporal(TemporalShape),
    /// Octets.
    Binary(BinaryShape),
    /// Qualified names.
    QNameLike,
}

/// What is asked of a text.
#[derive(Clone, Copy, PartialEq, Eq, Structural)]
pub enum StringShape {
    Any,
    Normalized,
    Token,
    Language,
    Name,
    NCName,
    Nmtoken,
    AnyUri,
}

/// How octets are written.
#[derive(Clone, Copy, PartialEq, Eq, Structural)]
pub enum BinaryShape {
    Hex,
    Base64,
}

/// A kind of whole numbers within bounds.
pub open spec fn whole_kind(min: Option<i128>, max: Option<i128>) -> Option<TypeKind> {
    Some(TypeKind::Decimal { integer_only: true, min, max })
}

/// The kind of the whole-number datatypes.
pub open spec fn integer_kind(t: Text) -> Option<TypeKind> {
    if t == "integer"@ {
        whole_kind(None, None)
    } else if t == "nonPositiveInteger"@ {
        whole_kind(None, Some(0))
    } else if t == "negativeInteger"@ {
        whole_kind(None, Some(-1 as i128))
    } else if t == "nonNegativeInteger"@ {
        whole_kind(Some(0), None)
    } else if t == "positiveInteger"@ {
        whole_kind(Some(1), None)
    } else if t == "long"@ {
        whole_kind(Some(-0x8000_0000_0000_0000 as i128), Some(0x7fff_ffff_ffff_ffff))
    } else if t == "int"@ {
        whole_kind(Some(-0x8000_0000 as i128), Some(0x7fff_ffff))
    } else if t == "short"@ {
        whole_kind(Some(-0x8000 as i128), Some(0x7fff))
    } else if t == "byte"@ {
        whole_kind(Some(-0x80 as i128), Some(0x7f))
    } else if t == "unsignedLong"@ {
        whole_kind(Some(0), Some(0xffff_ffff_ffff_ffff))
    } else if t == "unsignedInt"@ {
        whole_kind(Some(0), Some(0xffff_ffff))
    } else if t == "unsignedShort"@ {
        whole_kind(Some(0), Some(0xffff))
    } else if t == "unsignedByte"@ {
        whole_kind(Some(0), Some(0xff))
    } else {
        None
    }
}

/// The kind of a datatype.
pub open spec fn kind_of(t: Text) -> Option<TypeKind> {
    if t == "string"@ {
        Some(TypeKind::StringLike(StringShape::Any))
    } else if t == "normalizedString"@ {
        Some(TypeKind::StringLike(StringShape::Normalized))
    } else if t == "token"@ {
        Some(TypeKind::StringLike(StringShape::Token))
    } else if t == "language"@ {
        Some(TypeKind::StringLike(StringShape::Language))
    } else if t == "Name"@ {
        Some(TypeKind::StringLike(StringShape::Name))
    } else if t == "NCName"@ || t == "ID"@ || t == "IDREF"@ || t == "ENTITY"@ {
        Some(TypeKind::StringLike(StringShape::NCName))
    } else if t == "NMTOKEN"@ {
        Some(TypeKind::StringLike(StringShape::Nmtoken))
    } else if t == "anyURI"@ {
        Some(TypeKind::StringLike(StringShape::AnyUri))
    } else if t == "NMTOKENS"@ {
        Some(TypeKind::ListOf(StringShape::Nmtoken))
    } else if t == "IDREFS"@ || t == "ENTITIES"@ {
        Some(TypeKind::ListOf(StringShape::NCName))
    } else if t == "boolean"@ {
        Some(TypeKind::Boolean)
    } else if t == "decimal"@ {
        Some(TypeKind::Decimal { integer_only: false, min: None, max: None })
    } else if t == "float"@ {
        Some(TypeKind::Float)
    } else if t == "double"@ {
        Some(TypeKind::Double)
    } else if t == "duration"@ {
        Some(TypeKind::Duration)
    } else if t == "dateTime"@ {
        Some(TypeKind::Temporal(TemporalShape::DateTime))
    } else if t == "time"@ {
        Some(TypeKind::Temporal(TemporalShape::Time))
    } else if t == "date"@ {
        Some(TypeKind::Temporal(TemporalShape::Date))
    } else if t == "gYearMonth"@ {
        Some(TypeKind::Temporal(TemporalShape::GYearMonth))
    } else if t == "gYear"@ {
        Some(TypeKind::Temporal(TemporalShape::GYear))
    } else if t == "gMonthDay"@ {
        Some(TypeKind::Temporal(TemporalShape::GMonthDay))
    } else if t == "gDay"@ {
        Some(TypeKind::Temporal(TemporalShape::GDay))
    } else if t == "gMonth"@ {
        Some(TypeKind::Temporal(TemporalShape::GMonth))
    } else if t == "hexBinary"@ {
        Some(TypeKind::Binary(BinaryShape::Hex))
    } else if t == "base64Binary"@ {
        Some(TypeKind::Binary(BinaryShape::Base64))
    } else if t == "QName"@ || t == "NOTATION"@ {
        Some(TypeKind::QNameLike)
    } else {
        integer_kind(t)
    }
}

/// The kind of whole numbers within bounds.
fn whole(min: Option<i128>, max: Option<i128>) -> (r: Option<TypeKind>)
    ensures
        r == whole_kind(min, max),
{
    Some(TypeKind::Decimal { integer_only: true, min, max })
}

/// The kind of the whole-number datatypes; see [`integer_kind`].
fn lookup_integer(t: &str) -> (r: Option<TypeKind>)
    ensures
        r == integer_kind(t@),
{
    if same(t, "integer") {
        whole(None, None)
    } else if same(t, "nonPositiveInteger") {
        whole(None, Some(0))
    } else if same(t, "negativeInteger") {
        whole(None, Some(-1))
    } else if same(t, "nonNegativeInteger") {
        whole(Some(0), None)
    } else if same(t, "positiveInteger") {
        whole(Some(1), None)
    } else if same(t, "long") {
        whole(Some(-0x8000_0000_0000_0000), Some(0x7fff_ffff_ffff_ffff))
    } else if same(t, "int") {
        whole(Some(-0x8000_0000), Some(0x7fff_ffff))
    } else if same(t, "short") {
        whole(Some(-0x8000), Some(0x7fff))
    } else if same(t, "byte") {
        whole(Some(-0x80), Some(0x7f))
    } else if same(t, "unsignedLong") {
        whole(Some(0), Some(0xffff_ffff_ffff_ffff))
    } else if same(t, "unsignedInt") {
        whole(Some(0), Some(0xffff_ffff))
    } else if same(t, "unsignedShort") {
        whole(Some(0), Some(0xffff))
    } else if same(t, "unsignedByte") {
        whole(Some(0), Some(0xff))
    } else {
        None
    }
}

impl TypeKind {
    /// The kind of a datatype; see [`kind_of`].
    pub fn lookup(t: &str) -> (r: Option<TypeKind>)
        ensures
            r == kind_of(t@),
    {
        if same(t, "string") {
            Some(TypeKind::StringLike(StringShape::Any))
        } else if same(t, "normalizedString") {
            Some(TypeKind::StringLike(StringShape::Normalized))
        } else if same(t, "token") {
            Some(TypeKind::StringLike(StringShape::Token))
        } else if same(t, "language") {
            Some(TypeKind::StringLike(StringShape::Language))
        } else if same(t, "Name") {
            Some(TypeKind::StringLike(StringShape::Name))
        } else if same(t, "NCName") || same(t, "ID") || same(t, "IDREF") || same(t, "ENTITY") {
            Some(TypeKind::StringLike(StringShape::NCName))
        } else if same(t, "NMTOKEN") {
            Some(TypeKind::StringLike(StringShape::Nmtoken))
        } else if same(t, "anyURI") {
            Some(TypeKind::StringLike(StringShape::AnyUri))
        } else if same(t, "NMTOKENS") {
            Some(TypeKind::ListOf(StringShape::Nmtoken))
        } else if same(t, "IDREFS") || same(t, "ENTITIES") {
            Some(TypeKind::ListOf(StringShape::NCName))
        } else if same(t, "boolean") {
            Some(TypeKind::Boolean)
        } else if same(t, "decimal") {
            Some(TypeKind::Decimal { integer_only: false, min: None, max: None })
        } else if same(t, "float") {
            Some(TypeKind::Float)
        } else if same(t, "double") {
            Some(TypeKind::Double)
        } else if same(t, "duration") {
            Some(TypeKind::Duration)
        } else if same(t, "dateTime") {
            Some(TypeKind::Temporal(TemporalShape::DateTime))
        } else if same(t, "time") {
            Some(TypeKind::Temporal(TemporalShape::Time))
        } else if same(t, "date") {
            Some(TypeKind::Temporal(TemporalShape::Date))
        } else if same(t, "gYearMonth") {
            Some(TypeKind::Temporal(TemporalShape::GYearMonth))
        } else if same(t, "gYear") {
            Some(TypeKind::Temporal(TemporalShape::GYear))
        } else if same(t, "gMonthDay") {
            Some(TypeKind::Temporal(TemporalShape::GMonthDay))
        } else if same(t, "gDay") {
            Some(TypeKind::Temporal(TemporalShape::GDay))
        } else if same(t, "gMonth") {
            Some(TypeKind::Temporal(TemporalShape::GMonth))
        } else if same(t, "hexBinary") {
            Some(TypeKind::Binary(BinaryShape::Hex))
        } else if same(t, "base64Binary") {
            Some(TypeKind::Binary(BinaryShape::Base64))
        } else if same(t, "QName") || same(t, "NOTATION") {
            Some(TypeKind::QNameLike)
        } else {
            lookup_integer(t)
        }
    }
}

// ---------------------------------------------------------------------
// Texts
// ---------------------------------------------------------------------

/// A text with tabs and line ends as spaces.
pub open spec fn with_spaces(t: Text) -> Text {
    Seq::new(
        t.len(),
        |i: int|
            if t[i] == '\t' || t[i] == '\n' || t[i] == '\r' {
                ' '
            } else {
                t[i]
            },
    )
}

/// A text as its datatype counts whitespace.
pub open spec fn normalized(shape: StringShape, t: Text) -> Text {
    match shape {
        StringShape::Any => t,
        StringShape::Normalized => with_spaces(t),
        _ => collapse(t),
    }
}

/// Whether a character may stand anywhere in a name token, given whether it is
/// `XID_Continue`.
pub open spec fn name_char(c: char, continues: bool) -> bool {
    continues || c == '.' || c == '-' || c == ':' || c == '_'
}

/// Whether all characters from an index on may stand in a name token, given of each
/// whether it is `XID_Continue`.
pub open spec fn name_chars_given(t: Text, from: int, continues: Seq<bool>) -> bool {
    forall|i: int| from <= i < t.len() ==> name_char(#[trigger] t[i], continues[i])
}

/// Whether a text is a name token, given of each character whether it is `XID_Continue`.
pub open spec fn nmtoken_given(t: Text, continues: Seq<bool>) -> bool {
    t.len() > 0 && name_chars_given(t, 0, continues)
}

/// Whether a text is a name, which may hold colons, given whether its first character is
/// `XID_Start`, and of each whether it is `XID_Continue`.
pub open spec fn name_given(t: Text, starts: bool, continues: Seq<bool>) -> bool {
    t.len() > 0 && (starts || t[0] == ':' || t[0] == '_') && name_chars_given(t, 1, continues)
}

/// Of each character, whether it is `XID_Continue`.
pub open spec fn continuing(t: Text) -> Seq<bool> {
    Seq::new(t.len(), |i: int| xid_continue(t[i]))
}

/// Whether a text is a subtag of a language tag other than the first.
pub open spec fn subtag(t: Text) -> bool {
    0 < t.len() <= 8 && forall|i: int| 0 <= i < t.len() ==> ascii_alphanumeric(#[trigger] t[i])
}

/// Whether a text is the first subtag of a language tag.
pub open spec fn primary_subtag(t: Text) -> bool {
    0 < t.len() <= 8 && forall|i: int| 0 <= i < t.len() ==> ascii_letter(#[trigger] t[i])
}

/// Whether a text is a sequence of subtags, separated by hyphens.
pub open spec fn subtags(t: Text) -> bool
    decreases t.len(),
{
    match split_once(t, '-') {
        None => subtag(t),
        Some((first, rest)) => subtag(first) && if rest.len() < t.len() {
            subtags(rest)
        } else {
            true
        },
    }
}

/// Whether a text is a language tag.
pub open spec fn language_tag(t: Text) -> bool {
    match split_once(t, '-') {
        None => primary_subtag(t),
        Some((first, rest)) => primary_subtag(first) && subtags(rest),
    }
}

/// Whether a text is what its datatype asks for.
pub open spec fn well_shaped(shape: StringShape, t: Text) -> bool {
    match shape {
        StringShape::Language => language_tag(t),
        StringShape::Name => name_given(t, t.len() > 0 && xid_start(t[0]), continuing(t)),
        StringShape::NCName => ncname(t),
        StringShape::Nmtoken => nmtoken_given(t, continuing(t)),
        _ => true,
    }
}

/// A text with tabs and line ends as spaces.
fn replace_whitespace(v: &[char]) -> (r: Vec<char>)
    ensures
        r@ == with_spaces(v@),
{
    let mut out: Vec<char> = Vec::new();
    let mut i: usize = 0;
    while i < v.len()
        invariant
            i <= v.len(),
            out.len() == i,
            forall|j: int| 0 <= j < i ==> #[trigger] out@[j] == with_spaces(v@)[j],
        decreases v.len() - i,
    {
        let c = v[i];
        out.push(
            if c == '\t' || c == '\n' || c == '\r' {
                ' '
            } else {
                c
            },
        );
        i += 1;
    }
    assert(out@ =~= with_spaces(v@));
    out
}

/// A text as its datatype counts whitespace.
fn normalize_whitespace(shape: StringShape, v: &[char]) -> (r: Vec<char>)
    ensures
        r@ == normalized(shape, v@),
{
    match shape {
        StringShape::Any => copy_chars(v),
        StringShape::Normalized => replace_whitespace(v),
        _ => collapse_whitespace(v),
    }
}

/// Whether all characters from an index on may stand in a name token.
fn are_name_chars(v: &[char], from: usize, continues: &[bool]) -> (r: bool)
    requires
        continues@.len() == v@.len(),
        from <= v@.len(),
    ensures
        r == name_chars_given(v@, from as int, continues@),
{
    let mut i: usize = from;
    while i < v.len()
        invariant
            from <= i <= v.len(),
            continues@.len() == v@.len(),
            forall|j: int| from <= j < i ==> name_char(#[trigger] v@[j], continues@[j]),
        decreases v.len() - i,
    {
        let c = v[i];
        if !(continues[i] || c == '.' || c == '-' || c == ':' || c == '_') {
            assert(!name_char(v@[i as int], continues@[i as int]));
            return false;
        }
        i += 1;
    }
    true
}

/// Whether a text is a name token, given of each character whether it is `XID_Continue`.
pub fn is_nmtoken_given(v: &[char], continues: &[bool]) -> (r: bool)
    requires
        continues@.len() == v@.len(),
    ensures
        r == nmtoken_given(v@, continues@),
{
    v.len() > 0 && are_name_chars(v, 0, continues)
}

/// Whether a text is a name, which may hold colons, given whether its first character is
/// `XID_Start`, and of each whether it is `XID_Continue`.
pub fn is_name_given(v: &[char], starts: bool, continues: &[bool]) -> (r: bool)
    requires
        continues@.len() == v@.len(),
    ensures
        r == name_given(v@, starts, continues@),
{
    v.len() > 0 && (starts || v[0] == ':' || v[0] == '_') && are_name_chars(v, 1, continues)
}

/// Whether a text is a subtag of a language tag other than the first.
fn is_subtag(v: &[char]) -> (r: bool)
    ensures
        r == subtag(v@),
{
    if v.len() == 0 || v.len() > 8 {
        return false;
    }
    let mut i: usize = 0;
    while i < v.len()
        invariant
            i <= v.len(),
            forall|j: int| 0 <= j < i ==> ascii_alphanumeric(#[trigger] v@[j]),
        decreases v.len() - i,
    {
        if !is_ascii_alphanumeric(v[i]) {
            assert(!ascii_alphanumeric(v@[i as int]));
            return false;
        }
        i += 1;
    }
    true
}

/// Whether a text is the first subtag of a language tag.
fn is_primary_subtag(v: &[char]) -> (r: bool)
    ensures
        r == primary_subtag(v@),
{
    if v.len() == 0 || v.len() > 8 {
        return false;
    }
    let mut i: usize = 0;
    while i < v.len()
        invariant
            i <= v.len(),
            forall|j: int| 0 <= j < i ==> ascii_letter(#[trigger] v@[j]),
        decreases v.len() - i,
    {
        if !is_ascii_letter(v[i]) {
            assert(!ascii_letter(v@[i as int]));
            return false;
        }
        i += 1;
    }
    true
}

/// Whether a text is a language tag; see [`language_tag`].
pub fn is_language_tag(v: &[char]) -> (r: bool)
    ensures
        r == language_tag(v@),
{
    let (first, after) = match split_at_first(v, '-') {
        None => {
            return is_primary_subtag(v);
        },
        Some(parts) => parts,
    };
    if !is_primary_subtag(first) {
        return false;
    }
    let mut rest: &[char] = after;
    loop
        invariant
            subtags(after@) == subtags(rest@),
            language_tag(v@) == subtags(after@),
        decreases rest@.len(),
    {
        match split_at_first(rest, '-') {
            None => {
                return is_subtag(rest);
            },
            Some((next, more)) => {
                if !is_subtag(next) {
                    return false;
                }
                rest = more;
            },
        }
    }
}

/// Whether a text is what its datatype asks for; see [`well_shaped`].
fn is_well_shaped(shape: StringShape, v: &[char]) -> (r: bool)
    ensures
        r == well_shaped(shape, v@),
{
    match shape {
        StringShape::Language => is_language_tag(v),
        StringShape::Name => {
            let starts = v.len() > 0 && unicode_ident::is_xid_start(v[0]);
            let continues = continue_flags(v);
            assert(continues@ =~= continuing(v@));
            is_name_given(v, starts, continues.as_slice())
        },
        StringShape::NCName => is_ncname(v),
        StringShape::Nmtoken => {
            let continues = continue_flags(v);
            assert(continues@ =~= continuing(v@));
            is_nmtoken_given(v, continues.as_slice())
        },
        _ => true,
    }
}

// ---------------------------------------------------------------------
// Octets
// ---------------------------------------------------------------------

/// Whether a text writes octets in pairs of hexadecimal digits.
pub open spec fn hex_binary(t: Text) -> bool {
    t.len() % 2 == 0 && forall|i: int| 0 <= i < t.len() ==> hex_digit(#[trigger] t[i])
}

/// A letter in upper case.
pub open spec fn upper(c: char) -> char {
    if 'a' <= c <= 'z' {
        ((c as u32) - 32) as char
    } else {
        c
    }
}

/// A text in upper case.
pub open spec fn uppercase(t: Text) -> Text {
    Seq::new(t.len(), |i: int| upper(t[i]))
}

/// A text without its whitespace.
pub open spec fn dense(t: Text) -> Text
    decreases t.len(),
{
    if t.len() == 0 {
        t
    } else if white_space(t.last()) {
        dense(t.drop_last())
    } else {
        dense(t.drop_last()).push(t.last())
    }
}

/// The number of equals signs at the end.
pub open spec fn padding(t: Text) -> nat
    decreases t.len(),
{
    if t.len() > 0 && t.last() == '=' {
        1 + padding(t.drop_last())
    } else {
        0
    }
}

/// Whether a text is of groups of four characters, the last padded with at most two equals
/// signs.
pub open spec fn base64_groups(t: Text) -> bool {
    &&& t.len() % 4 == 0
    &&& padding(t) <= 2
    &&& forall|i: int|
        0 <= i < t.len() - padding(t) ==> ascii_alphanumeric(#[trigger] t[i]) || t[i] == '+'
            || t[i] == '/'
}

/// Whether a text writes octets in base 64, with whitespace anywhere.
pub open spec fn base64_binary(t: Text) -> bool {
    base64_groups(dense(collapse(t)))
}

/// Whether a text writes octets in pairs of hexadecimal digits.
fn is_hex_binary(v: &[char]) -> (r: bool)
    ensures
        r == hex_binary(v@),
{
    if v.len() % 2 != 0 {
        return false;
    }
    let mut i: usize = 0;
    while i < v.len()
        invariant
            i <= v.len(),
            forall|j: int| 0 <= j < i ==> hex_digit(#[trigger] v@[j]),
        decreases v.len() - i,
    {
        if !is_hex_digit(v[i]) {
            assert(!hex_digit(v@[i as int]));
            return false;
        }
        i += 1;
    }
    true
}

/// A text in upper case.
fn normalize_case(v: &[char]) -> (r: Vec<char>)
    ensures
        r@ == uppercase(v@),
{
    let mut out: Vec<char> = Vec::new();
    let mut i: usize = 0;
    while i < v.len()
        invariant
            i <= v.len(),
            out.len() == i,
            forall|j: int| 0 <= j < i ==> #[trigger] out@[j] == upper(v@[j]),
        decreases v.len() - i,
    {
        let c = v[i];
        out.push(
            if 'a' <= c && c <= 'z' {
                (c as u8 - 32) as char
            } else {
                c
            },
        );
        i += 1;
    }
    assert(out@ =~= uppercase(v@));
    out
}

/// A text without its whitespace.
fn without_whitespace(v: &[char]) -> (r: Vec<char>)
    ensures
        r@ == dense(v@),
{
    let mut out: Vec<char> = Vec::new();
    let mut i: usize = 0;
    assert(dense(v@.take(0)) =~= Seq::<char>::empty());
    while i < v.len()
        invariant
            i <= v.len(),
            out@ == dense(v@.take(i as int)),
        decreases v.len() - i,
    {
        let c = v[i];
        assert(v@.take(i + 1).drop_last() =~= v@.take(i as int));
        assert(v@.take(i + 1).last() == c);
        if !is_white_space(c) {
            out.push(c);
        }
        i += 1;
    }
    assert(v@.take(i as int) =~= v@);
    out
}

/// The padding ends where the last character that is no equals sign stands.
proof fn lemma_padding(t: Text, n: nat)
    requires
        n <= t.len(),
        forall|j: int| n <= j < t.len() ==> #[trigger] t[j] == '=',
        n > 0 ==> t[n - 1] != '=',
    ensures
        padding(t) == t.len() - n,
    decreases t.len(),
{
    if t.len() > n {
        assert(t[t.len() - 1] == '=');
        let head = t.drop_last();
        assert forall|j: int| n <= j < head.len() implies #[trigger] head[j] == '=' by {
            assert(head[j] == t[j]);
        }
        lemma_padding(head, n);
    }
}

/// Whether a text writes octets in base 64; see [`base64_binary`].
fn is_base64_binary(v: &[char]) -> (r: bool)
    ensures
        r == base64_binary(v@),
{
    let collapsed = collapse_whitespace(v);
    let stripped = without_whitespace(collapsed.as_slice());
    let ghost t = stripped@;
    if stripped.len() % 4 != 0 {
        return false;
    }
    let mut n: usize = stripped.len();
    while n > 0 && stripped[n - 1] == '='
        invariant
            n <= stripped.len(),
            t == stripped@,
            forall|j: int| n <= j < t.len() ==> #[trigger] t[j] == '=',
        decreases n,
    {
        n -= 1;
    }
    proof {
        lemma_padding(t, n as nat);
    }
    if stripped.len() - n > 2 {
        return false;
    }
    let mut i: usize = 0;
    while i < n
        invariant
            i <= n <= stripped.len(),
            t == stripped@,
            t == dense(collapse(v@)),
            padding(t) == t.len() - n,
            forall|j: int|
                0 <= j < i ==> ascii_alphanumeric(#[trigger] t[j]) || t[j] == '+' || t[j] == '/',
        decreases n - i,
    {
        let c = stripped[i];
        if !(is_ascii_alphanumeric(c) || c == '+' || c == '/') {
            assert(!(ascii_alphanumeric(t[i as int]) || t[i as int] == '+' || t[i as int] == '/'));
            return false;
        }
        i += 1;
    }
    true
}

// ---------------------------------------------------------------------
// Values
// ---------------------------------------------------------------------

/// The value of a datatype that a text denotes.
pub enum ValueModel {
    Text(Text),
    List(Seq<Text>),
    Boolean(bool),
    Decimal(DecimalModel),
    Float(Float),
    Duration(DurationModel),
    Temporal(TemporalModel),
    QName { namespace: Text, local: Text },
}

/// A truth value.
pub open spec fn boolean(t: Text) -> Option<bool> {
    if t == "true"@ || t == "1"@ {
        Some(true)
    } else if t == "false"@ || t == "0"@ {
        Some(false)
    } else {
        None
    }
}

/// A qualified name: a name that a prefix takes to a namespace, or one without a prefix,
/// which is in the default namespace, or in none where there is no default.
pub open spec fn qualified_name(t: Text, bindings: Bindings) -> Option<ValueModel> {
    match split_once(t, ':') {
        None => if ncname(t) {
            Some(
                ValueModel::QName {
                    namespace: match resolved(bindings, Seq::empty()) {
                        Some(uri) => uri,
                        None => Seq::empty(),
                    },
                    local: t,
                },
            )
        } else {
            None
        },
        Some((prefix, local)) => if ncname(local) && ncname(prefix) {
            match resolved(bindings, prefix) {
                Some(uri) => Some(ValueModel::QName { namespace: uri, local }),
                None => None,
            }
        } else {
            None
        },
    }
}

/// Whether a decimal number is within those bounds that its datatype has. A datatype with
/// a bound has only whole numbers.
pub open spec fn within(d: DecimalModel, min: Option<i128>, max: Option<i128>) -> bool {
    min is None && max is None || {
        &&& d.fraction.len() == 0
        &&& min is Some ==> whole_value(d) >= min->0
        &&& max is Some ==> whole_value(d) <= max->0
    }
}

/// The value that a text denotes.
pub open spec fn denoted(kind: TypeKind, t: Text, bindings: Bindings) -> Option<ValueModel> {
    match kind {
        TypeKind::StringLike(shape) => if well_shaped(shape, normalized(shape, t)) {
            Some(ValueModel::Text(normalized(shape, t)))
        } else {
            None
        },
        TypeKind::ListOf(shape) => if forall|i: int|
            0 <= i < tokens(t).len() ==> well_shaped(shape, #[trigger] tokens(t)[i]) {
            Some(ValueModel::List(tokens(t)))
        } else {
            None
        },
        TypeKind::Boolean => match boolean(trim(t)) {
            Some(b) => Some(ValueModel::Boolean(b)),
            None => None,
        },
        TypeKind::Decimal { integer_only, min, max } => match decimal_of(trim(t)) {
            Some(d) => if (integer_only && d.fraction.len() > 0) || !within(d, min, max) {
                None
            } else {
                Some(ValueModel::Decimal(d))
            },
            None => None,
        },
        TypeKind::Float => match literal(trim(t)) {
            Some(number) => Some(ValueModel::Float(number)),
            None => None,
        },
        TypeKind::Double => match literal(trim(t)) {
            Some(number) => Some(ValueModel::Float(number)),
            None => None,
        },
        TypeKind::Duration => match duration_of(trim(t)) {
            Some(duration) => Some(ValueModel::Duration(duration)),
            None => None,
        },
        TypeKind::Temporal(shape) => match temporal_of(shape, trim(t)) {
            Some(value) => Some(ValueModel::Temporal(value)),
            None => None,
        },
        TypeKind::Binary(BinaryShape::Hex) => if hex_binary(trim(t)) {
            Some(ValueModel::Text(uppercase(trim(t))))
        } else {
            None
        },
        TypeKind::Binary(BinaryShape::Base64) => if base64_binary(trim(t)) {
            Some(ValueModel::Text(collapse(t)))
        } else {
            None
        },
        TypeKind::QNameLike => qualified_name(trim(t), bindings),
    }
}

/// Whether two values are the same.
pub open spec fn same_value(a: ValueModel, b: ValueModel) -> bool {
    match (a, b) {
        (ValueModel::Text(x), ValueModel::Text(y)) => x == y,
        (ValueModel::List(x), ValueModel::List(y)) => x == y,
        (ValueModel::Boolean(x), ValueModel::Boolean(y)) => x == y,
        (ValueModel::Decimal(x), ValueModel::Decimal(y)) => decimal_order(x, y) == Order::Equal,
        (ValueModel::Float(x), ValueModel::Float(y)) => compared(x, y) == Some(Order::Equal),
        (ValueModel::Duration(x), ValueModel::Duration(y)) => compared(
            duration_seconds(x),
            duration_seconds(y),
        ) == Some(Order::Equal),
        (ValueModel::Temporal(x), ValueModel::Temporal(y)) => compared(
            temporal_seconds(x),
            temporal_seconds(y),
        ) == Some(Order::Equal),
        (
            ValueModel::QName { namespace: n, local: x },
            ValueModel::QName { namespace: m, local: y },
        ) => n == m && x == y,
        _ => false,
    }
}

/// The number by which values other than decimal numbers are ordered.
pub open spec fn ordering_key(v: ValueModel) -> Option<Float> {
    match v {
        ValueModel::Float(number) => Some(number),
        ValueModel::Duration(duration) => Some(duration_seconds(duration)),
        ValueModel::Temporal(value) => Some(temporal_seconds(value)),
        _ => None,
    }
}

/// How two values compare, where they do.
pub open spec fn value_order(a: ValueModel, b: ValueModel) -> Option<Order> {
    match (a, b) {
        (ValueModel::Decimal(x), ValueModel::Decimal(y)) => Some(decimal_order(x, y)),
        _ => match (ordering_key(a), ordering_key(b)) {
            (Some(x), Some(y)) => compared(x, y),
            _ => None,
        },
    }
}

/// The number of characters of a text, or of items of a list.
pub open spec fn length_of(v: ValueModel) -> Option<nat> {
    match v {
        ValueModel::Text(t) => Some(t.len()),
        ValueModel::List(items) => Some(items.len()),
        _ => None,
    }
}

/// A value of a datatype.
pub enum Value {
    /// A text.
    Text(Vec<char>),
    /// A list of texts.
    List(Vec<Vec<char>>),
    /// A truth value.
    Boolean(bool),
    /// A decimal number.
    Decimal(Decimal),
    /// A number in floating point.
    Float(Double),
    /// A duration.
    Duration(Duration),
    /// A date or time.
    Temporal(Temporal),
    /// A qualified name.
    QName {
        /// The namespace, empty where there is none.
        namespace: String,
        /// The name in it.
        local: Vec<char>,
    },
}

impl View for Value {
    type V = ValueModel;

    open spec fn view(&self) -> ValueModel {
        match self {
            Value::Text(t) => ValueModel::Text(t@),
            Value::List(items) => ValueModel::List(char_vecs(items@)),
            Value::Boolean(b) => ValueModel::Boolean(*b),
            Value::Decimal(d) => ValueModel::Decimal(d@),
            Value::Float(number) => ValueModel::Float(number@),
            Value::Duration(duration) => ValueModel::Duration(duration@),
            Value::Temporal(value) => ValueModel::Temporal(value@),
            Value::QName { namespace, local } => ValueModel::QName {
                namespace: namespace@,
                local: local@,
            },
        }
    }
}

/// The model of an optional value.
pub open spec fn opt_value(v: Option<Value>) -> Option<ValueModel> {
    match v {
        Some(v) => Some(v@),
        None => None,
    }
}

/// A truth value; see [`boolean`].
fn parse_boolean(v: &[char]) -> (r: Option<bool>)
    ensures
        r == boolean(v@),
{
    if spells(v, "true") || spells(v, "1") {
        Some(true)
    } else if spells(v, "false") || spells(v, "0") {
        Some(false)
    } else {
        None
    }
}

/// A qualified name; see [`qualified_name`].
fn parse_qname(v: &[char], context: &DatatypeContext) -> (r: Option<Value>)
    ensures
        opt_value(r) == qualified_name(v@, context@),
{
    match split_at_first(v, ':') {
        None => {
            if !is_ncname(v) {
                return None;
            }
            proof {
                reveal_strlit("");
                assert(""@ =~= Seq::<char>::empty());
            }
            let namespace = match context.resolve("") {
                Some(uri) => uri.to_owned(),
                None => String::new(),
            };
            Some(Value::QName { namespace, local: copy_chars(v) })
        },
        Some((prefix, local)) => {
            if !is_ncname(local) || !is_ncname(prefix) {
                return None;
            }
            let name = from_chars(prefix);
            match context.resolve(name.as_str()) {
                Some(uri) => Some(
                    Value::QName { namespace: uri.to_owned(), local: copy_chars(local) },
                ),
                None => None,
            }
        },
    }
}

/// A decimal number within the bounds of its datatype; see [`within`].
fn parse_decimal(v: &[char], integer_only: bool, min: Option<i128>, max: Option<i128>) -> (r:
    Option<Value>)
    ensures
        opt_value(r) == (match decimal_of(v@) {
            Some(d) => if (integer_only && d.fraction.len() > 0) || !within(d, min, max) {
                None
            } else {
                Some(ValueModel::Decimal(d))
            },
            None => None,
        }),
{
    let d = match Decimal::parse(v) {
        Some(d) => d,
        None => {
            return None;
        },
    };
    if integer_only && d.fraction_digit_count() > 0 {
        return None;
    }
    if min.is_some() || max.is_some() {
        if d.fraction_digit_count() > 0 {
            return None;
        }
        match d.to_i128() {
            Some(n) => {
                if min.is_some() && n < min.unwrap() {
                    return None;
                }
                if max.is_some() && n > max.unwrap() {
                    return None;
                }
            },
            None => {
                if d.is_negative() && min.is_some() {
                    return None;
                }
                if !d.is_negative() && max.is_some() {
                    return None;
                }
            },
        }
    }
    Some(Value::Decimal(d))
}

/// A list of texts, each of which is what the datatype asks for.
fn parse_list(shape: StringShape, v: &[char]) -> (r: Option<Value>)
    ensures
        opt_value(r) == denoted(TypeKind::ListOf(shape), v@, Seq::empty()),
{
    let items = split_tokens(v);
    let ghost all = tokens(v@);
    let mut i: usize = 0;
    while i < items.len()
        invariant
            i <= items.len(),
            all == tokens(v@),
            char_vecs(items@) == all,
            forall|j: int| 0 <= j < i ==> well_shaped(shape, #[trigger] all[j]),
        decreases items.len() - i,
    {
        let item = items[i].as_slice();
        assert(item@ == all[i as int]);
        if !is_well_shaped(shape, item) {
            assert(!well_shaped(shape, tokens(v@)[i as int]));
            return None;
        }
        i += 1;
    }
    Some(Value::List(items))
}

impl TypeKind {
    /// The value that a text denotes; see [`denoted`].
    pub fn parse(self, value: &str, context: &DatatypeContext) -> (r: Option<Value>)
        ensures
            opt_value(r) == denoted(self, value@, context@),
    {
        let chars = to_chars(value);
        let v = chars.as_slice();
        let inner = trimmed(v);
        match self {
            TypeKind::StringLike(shape) => {
                let text = normalize_whitespace(shape, v);
                if is_well_shaped(shape, text.as_slice()) {
                    Some(Value::Text(text))
                } else {
                    None
                }
            },
            TypeKind::ListOf(shape) => parse_list(shape, v),
            TypeKind::Boolean => match parse_boolean(inner) {
                Some(b) => Some(Value::Boolean(b)),
                None => None,
            },
            TypeKind::Decimal { integer_only, min, max } => parse_decimal(
                inner,
                integer_only,
                min,
                max,
            ),
            TypeKind::Float => match parse_literal(inner) {
                Some(number) => Some(Value::Float(number)),
                None => None,
            },
            TypeKind::Double => match parse_literal(inner) {
                Some(number) => Some(Value::Float(number)),
                None => None,
            },
            TypeKind::Duration => match Duration::parse(inner) {
                Some(duration) => Some(Value::Duration(duration)),
                None => None,
            },
            TypeKind::Temporal(shape) => match Temporal::parse(shape, inner) {
                Some(value) => Some(Value::Temporal(value)),
                None => None,
            },
            TypeKind::Binary(BinaryShape::Hex) => {
                if is_hex_binary(inner) {
                    Some(Value::Text(normalize_case(inner)))
                } else {
                    None
                }
            },
            TypeKind::Binary(BinaryShape::Base64) => {
                if is_base64_binary(inner) {
                    Some(Value::Text(collapse_whitespace(v)))
                } else {
                    None
                }
            },
            TypeKind::QNameLike => parse_qname(inner, context),
        }
    }
}

/// Whether two lists of texts are the same.
fn same_lists(a: &Vec<Vec<char>>, b: &Vec<Vec<char>>) -> (r: bool)
    ensures
        r == (char_vecs(a@) == char_vecs(b@)),
{
    let ghost x = char_vecs(a@);
    let ghost y = char_vecs(b@);
    if a.len() != b.len() {
        assert(x.len() != y.len());
        return false;
    }
    let mut i: usize = 0;
    while i < a.len()
        invariant
            i <= a.len(),
            a.len() == b.len(),
            x == char_vecs(a@),
            y == char_vecs(b@),
            forall|j: int| 0 <= j < i ==> #[trigger] x[j] == y[j],
        decreases a.len() - i,
    {
        assert(x[i as int] == a@[i as int]@ && y[i as int] == b@[i as int]@);
        if !same_chars(a[i].as_slice(), b[i].as_slice()) {
            return false;
        }
        i += 1;
    }
    assert(x =~= y);
    true
}

impl Value {
    /// Whether two values are the same; see [`same_value`].
    pub fn equals(&self, other: &Value) -> (r: bool)
        ensures
            r == same_value(self@, other@),
    {
        match (self, other) {
            (Value::Text(x), Value::Text(y)) => same_chars(x.as_slice(), y.as_slice()),
            (Value::List(x), Value::List(y)) => same_lists(x, y),
            (Value::Boolean(x), Value::Boolean(y)) => *x == *y,
            (Value::Decimal(x), Value::Decimal(y)) => match x.compare(y) {
                Order::Equal => true,
                _ => false,
            },
            (Value::Float(x), Value::Float(y)) => x.equals(y),
            (Value::Duration(x), Value::Duration(y)) => x.approx_seconds().equals(
                &y.approx_seconds(),
            ),
            (Value::Temporal(x), Value::Temporal(y)) => x.ordering_key().equals(&y.ordering_key()),
            (
                Value::QName { namespace: n, local: x },
                Value::QName { namespace: m, local: y },
            ) => same(n.as_str(), m.as_str()) && same_chars(x.as_slice(), y.as_slice()),
            _ => false,
        }
    }

    /// The number by which the value is ordered; see [`ordering_key`].
    fn ordering_key(&self) -> (r: Option<Double>)
        ensures
            match r {
                Some(key) => ordering_key(self@) == Some(key@),
                None => ordering_key(self@) is None,
            },
    {
        match self {
            Value::Float(number) => Some(number.copy()),
            Value::Duration(duration) => Some(duration.approx_seconds()),
            Value::Temporal(value) => Some(value.ordering_key()),
            _ => None,
        }
    }

    /// How two values compare; see [`value_order`].
    fn compare(&self, other: &Value) -> (r: Option<Order>)
        ensures
            r == value_order(self@, other@),
    {
        match (self, other) {
            (Value::Decimal(x), Value::Decimal(y)) => Some(x.compare(y)),
            _ => match (self.ordering_key(), other.ordering_key()) {
                (Some(x), Some(y)) => x.compare(&y),
                _ => None,
            },
        }
    }

    /// The number of characters of a text, or of items of a list.
    fn text_length(&self) -> (r: Option<u64>)
        ensures
            match r {
                Some(n) => length_of(self@) == Some(n as nat),
                None => length_of(self@) is None,
            },
    {
        match self {
            Value::Text(t) => Some(t.len() as u64),
            Value::List(items) => Some(items.len() as u64),
            _ => None,
        }
    }
}

// ---------------------------------------------------------------------
// Facets
// ---------------------------------------------------------------------

/// The message with which `regex` refuses a pattern; `None` where it accepts it.
pub uninterp spec fn regex_error(pattern: Text) -> Option<Text>;

/// Whether there is a match of a pattern in a text; `None` where `regex` refuses the
/// pattern.
pub uninterp spec fn regex_match(pattern: Text, haystack: Text) -> Option<bool>;

/// `regex::Regex::new` compiles a pattern, or refuses it with an error, whose message
/// depends on the pattern alone. Which patterns it refuses is left to the name
/// [`regex_error`].
#[verifier::external_body]
fn regex_problem(pattern: &str) -> (r: Option<String>)
    ensures
        match r {
            Some(message) => regex_error(pattern@) == Some(message@),
            None => regex_error(pattern@) is None,
        },
{
    regex::Regex::new(pattern).err().map(|error| error.to_string())
}

/// `regex::Regex::is_match` tells whether a compiled pattern matches anywhere in a text,
/// which depends on the two alone. Which texts match is left to the name [`regex_match`].
#[verifier::external_body]
fn regex_is_match(pattern: &str, haystack: &str) -> (r: Option<bool>)
    ensures
        r == regex_match(pattern@, haystack@),
{
    regex::Regex::new(pattern).ok().map(|regex| regex.is_match(haystack))
}

/// A pattern that is to match a whole text.
pub open spec fn anchored(pattern: Text) -> Text {
    "^(?:"@ + pattern + ")$"@
}

/// Whether values of a kind are ordered.
pub open spec fn ordered(kind: TypeKind) -> bool {
    kind is Decimal || kind is Float || kind is Double || kind is Duration || kind is Temporal
}

/// Whether values of a kind have a length.
pub open spec fn has_length(kind: TypeKind) -> bool {
    kind is StringLike || kind is ListOf
}

/// Whether a facet bounds the length.
pub open spec fn length_facet(name: Text) -> bool {
    name == "length"@ || name == "minLength"@ || name == "maxLength"@
}

/// Whether a facet bounds the value.
pub open spec fn order_facet(name: Text) -> bool {
    name == "minInclusive"@ || name == "minExclusive"@ || name == "maxInclusive"@ || name
        == "maxExclusive"@
}

/// A text that denotes a machine word without a sign.
pub open spec fn word(t: Text) -> Option<nat> {
    natural(t, usize::MAX as nat)
}

/// What is wrong with a facet of a datatype of the given kind, given the message with
/// which the pattern is refused, where it is a `pattern` that is.
pub open spec fn facet_problem(
    kind: TypeKind,
    name: Text,
    value: Text,
    pattern_error: Option<Text>,
) -> Option<Text> {
    if name == "pattern"@ {
        match pattern_error {
            Some(message) => Some("invalid `pattern` facet: "@ + message),
            None => None,
        }
    } else if name == "enumeration"@ {
        None
    } else if name == "whiteSpace"@ {
        if value == "preserve"@ || value == "replace"@ || value == "collapse"@ {
            None
        } else {
            Some("invalid `whiteSpace` facet value `"@ + value + "`"@)
        }
    } else if length_facet(name) {
        if !has_length(kind) {
            Some("`"@ + name + "` does not apply to this datatype"@)
        } else if word(value) is None {
            Some("`"@ + name + "` must be a non-negative integer, found `"@ + value + "`"@)
        } else {
            None
        }
    } else if name == "totalDigits"@ {
        if !(kind is Decimal) {
            Some("`totalDigits` only applies to decimal-derived datatypes"@)
        } else if word(value) is None || word(value)->0 == 0 {
            Some("`totalDigits` must be a positive integer, found `"@ + value + "`"@)
        } else {
            None
        }
    } else if name == "fractionDigits"@ {
        if !(kind is Decimal) {
            Some("`fractionDigits` only applies to decimal-derived datatypes"@)
        } else if word(value) is None {
            Some("`fractionDigits` must be a non-negative integer, found `"@ + value + "`"@)
        } else {
            None
        }
    } else if order_facet(name) {
        if !ordered(kind) {
            Some("`"@ + name + "` does not apply to this datatype"@)
        } else if denoted(kind, value, Seq::empty()) is None {
            Some(
                "`"@ + name + "` value `"@ + value + "` is not a valid literal of this datatype"@,
            )
        } else {
            None
        }
    } else {
        Some("unknown facet `"@ + name + "`"@)
    }
}

/// What is wrong with the first `n` facets of a datatype: the first problem.
pub open spec fn facets_problem(kind: TypeKind, params: Seq<(Text, Text)>, n: nat) -> Option<Text>
    decreases n,
{
    if n == 0 || n > params.len() {
        None
    } else {
        match facets_problem(kind, params, (n - 1) as nat) {
            Some(message) => Some(message),
            None => facet_problem(
                kind,
                params[n - 1].0,
                params[n - 1].1,
                regex_error(anchored(params[n - 1].1)),
            ),
        }
    }
}

/// What is wrong with a datatype and its facets.
pub open spec fn xsd_problem(datatype: Text, params: Seq<(Text, Text)>) -> Option<Text> {
    match kind_of(datatype) {
        None => Some("unknown XSD datatype `"@ + datatype + "`"@),
        Some(kind) => facets_problem(kind, params, params.len()),
    }
}

/// Whether a value satisfies a facet that is neither a `pattern` nor an `enumeration`.
pub open spec fn facet_holds(
    kind: TypeKind,
    name: Text,
    param: Text,
    value: ValueModel,
    bindings: Bindings,
) -> bool {
    let order = match denoted(kind, param, bindings) {
        Some(bound) => value_order(bound, value),
        None => None,
    };
    if name == "length"@ {
        length_of(value) == word(param)
    } else if name == "minLength"@ {
        word(param) is Some && length_of(value) is Some && length_of(value)->0 >= word(param)->0
    } else if name == "maxLength"@ {
        word(param) is Some && length_of(value) is Some && length_of(value)->0 <= word(param)->0
    } else if name == "totalDigits"@ {
        match value {
            ValueModel::Decimal(d) => word(param) is Some && d.whole.len() + d.fraction.len()
                <= word(param)->0,
            _ => true,
        }
    } else if name == "fractionDigits"@ {
        match value {
            ValueModel::Decimal(d) => word(param) is Some && d.fraction.len() <= word(param)->0,
            _ => true,
        }
    } else if name == "minInclusive"@ {
        order == Some(Order::Less) || order == Some(Order::Equal)
    } else if name == "minExclusive"@ {
        order == Some(Order::Less)
    } else if name == "maxInclusive"@ {
        order == Some(Order::Greater) || order == Some(Order::Equal)
    } else if name == "maxExclusive"@ {
        order == Some(Order::Greater)
    } else {
        true
    }
}

/// Whether a value satisfies one of the patterns, where there are any, given of each
/// parameter whether it is a pattern that matches.
pub open spec fn some_pattern(params: Seq<(Text, Text)>, matched: Seq<bool>) -> bool {
    (forall|i: int| 0 <= i < params.len() ==> (#[trigger] params[i]).0 != "pattern"@) || exists|
        i: int,
    |
        0 <= i < params.len() && (#[trigger] params[i]).0 == "pattern"@ && matched[i]
}

/// Whether a literal denotes a value.
#[verifier::opaque]
pub open spec fn denotes(kind: TypeKind, literal: Text, value: ValueModel, bindings: Bindings) -> bool {
    match denoted(kind, literal, bindings) {
        Some(v) => same_value(v, value),
        None => false,
    }
}

/// Whether a value is one of those enumerated, where there are any.
pub open spec fn some_enumerated(
    kind: TypeKind,
    params: Seq<(Text, Text)>,
    value: ValueModel,
    bindings: Bindings,
) -> bool {
    (forall|i: int| 0 <= i < params.len() ==> (#[trigger] params[i]).0 != "enumeration"@)
        || exists|i: int|
        0 <= i < params.len() && (#[trigger] params[i]).0 == "enumeration"@ && denotes(
            kind,
            params[i].1,
            value,
            bindings,
        )
}

/// Whether a value satisfies each of the other facets.
pub open spec fn all_facets(
    kind: TypeKind,
    params: Seq<(Text, Text)>,
    value: ValueModel,
    bindings: Bindings,
) -> bool {
    forall|i: int|
        0 <= i < params.len() && (#[trigger] params[i]).0 != "pattern"@ && params[i].0
            != "enumeration"@ ==> facet_holds(kind, params[i].0, params[i].1, value, bindings)
}

/// Whether a text is a value of a datatype that satisfies the facets, given of each
/// parameter whether it is a pattern that matches. Of several patterns or enumerated
/// values, one is enough.
pub open spec fn xsd_accepts_given(
    datatype: Text,
    params: Seq<(Text, Text)>,
    value: Text,
    bindings: Bindings,
    matched: Seq<bool>,
) -> bool {
    match kind_of(datatype) {
        None => false,
        Some(kind) => match denoted(kind, value, bindings) {
            None => false,
            Some(v) => some_pattern(params, matched) && some_enumerated(kind, params, v, bindings)
                && all_facets(kind, params, v, bindings),
        },
    }
}

/// Of each parameter, whether it is a pattern that matches a text but for whitespace at
/// its ends.
pub open spec fn matched_patterns(params: Seq<(Text, Text)>, value: Text) -> Seq<bool> {
    Seq::new(
        params.len(),
        |i: int|
            params[i].0 == "pattern"@ && regex_match(anchored(params[i].1), trim(value)) == Some(
                true,
            ),
    )
}

/// Whether a text is a value of a datatype that satisfies the facets.
pub open spec fn xsd_accepts(
    datatype: Text,
    params: Seq<(Text, Text)>,
    value: Text,
    bindings: Bindings,
) -> bool {
    xsd_accepts_given(datatype, params, value, bindings, matched_patterns(params, value))
}

/// Whether two texts denote the same value of a datatype.
pub open spec fn xsd_same(
    datatype: Text,
    expected: Text,
    expected_bindings: Bindings,
    actual: Text,
    actual_bindings: Bindings,
) -> bool {
    match kind_of(datatype) {
        None => false,
        Some(kind) => match (
            denoted(kind, expected, expected_bindings),
            denoted(kind, actual, actual_bindings),
        ) {
            (Some(a), Some(b)) => same_value(a, b),
            _ => false,
        },
    }
}

/// The library's behaviour.
pub open spec fn xsd_model() -> LibraryModel {
    LibraryModel {
        problem: |datatype: Text, params: Seq<(Text, Text)>| xsd_problem(datatype, params),
        accepts: |datatype: Text, params: Seq<(Text, Text)>, value: Text, context: Bindings|
            xsd_accepts(datatype, params, value, context),
        same: |
            datatype: Text,
            expected: Text,
            expected_context: Bindings,
            actual: Text,
            actual_context: Bindings,
        | xsd_same(datatype, expected, expected_context, actual, actual_context),
    }
}

/// A machine word without a sign; see [`word`].
fn parse_word(s: &str) -> (r: Option<u64>)
    ensures
        match r {
            Some(n) => word(s@) == Some(n as nat),
            None => word(s@) is None,
        },
{
    let v = to_chars(s);
    parse_natural(v.as_slice(), usize::MAX as u64)
}

/// Checks a facet of a datatype of the given kind, given the message with which the
/// pattern is refused, where it is a `pattern` that is; see [`facet_problem`].
pub fn validate_facet(
    kind: TypeKind,
    name: &str,
    value: &str,
    pattern_error: Option<String>,
) -> (r: Result<(), String>)
    ensures
        problem(r) == facet_problem(kind, name@, value@, opt_text(pattern_error)),
{
    let is_decimal = match kind {
        TypeKind::Decimal { .. } => true,
        _ => false,
    };
    let is_ordered = match kind {
        TypeKind::Decimal { .. } => true,
        TypeKind::Float => true,
        TypeKind::Double => true,
        TypeKind::Duration => true,
        TypeKind::Temporal(_) => true,
        _ => false,
    };
    let is_text = match kind {
        TypeKind::StringLike(_) => true,
        TypeKind::ListOf(_) => true,
        _ => false,
    };
    if same(name, "pattern") {
        match pattern_error {
            Some(message) => Err(concat2("invalid `pattern` facet: ", message.as_str())),
            None => Ok(()),
        }
    } else if same(name, "enumeration") {
        Ok(())
    } else if same(name, "whiteSpace") {
        if same(value, "preserve") || same(value, "replace") || same(value, "collapse") {
            Ok(())
        } else {
            Err(concat3("invalid `whiteSpace` facet value `", value, "`"))
        }
    } else if same(name, "length") || same(name, "minLength") || same(name, "maxLength") {
        if !is_text {
            return Err(concat3("`", name, "` does not apply to this datatype"));
        }
        match parse_word(value) {
            Some(_) => Ok(()),
            None => Err(
                concat5("`", name, "` must be a non-negative integer, found `", value, "`"),
            ),
        }
    } else if same(name, "totalDigits") {
        if !is_decimal {
            return Err("`totalDigits` only applies to decimal-derived datatypes".to_owned());
        }
        match parse_word(value) {
            Some(n) if n > 0 => Ok(()),
            _ => Err(concat3("`totalDigits` must be a positive integer, found `", value, "`")),
        }
    } else if same(name, "fractionDigits") {
        if !is_decimal {
            return Err("`fractionDigits` only applies to decimal-derived datatypes".to_owned());
        }
        match parse_word(value) {
            Some(_) => Ok(()),
            None => Err(
                concat3("`fractionDigits` must be a non-negative integer, found `", value, "`"),
            ),
        }
    } else if same(name, "minInclusive") || same(name, "minExclusive") || same(
        name,
        "maxInclusive",
    ) || same(name, "maxExclusive") {
        if !is_ordered {
            return Err(concat3("`", name, "` does not apply to this datatype"));
        }
        match kind.parse(value, &DatatypeContext::empty()) {
            Some(_) => Ok(()),
            None => Err(
                concat5(
                    "`",
                    name,
                    "` value `",
                    value,
                    "` is not a valid literal of this datatype",
                ),
            ),
        }
    } else {
        Err(concat3("unknown facet `", name, "`"))
    }
}

/// Whether a value satisfies a facet that is neither a `pattern` nor an `enumeration`; see
/// [`facet_holds`].
fn facet_satisfied(
    kind: TypeKind,
    name: &str,
    param: &str,
    value: &Value,
    context: &DatatypeContext,
) -> (r: bool)
    ensures
        r == facet_holds(kind, name@, param@, value@, context@),
{
    if same(name, "length") {
        match (value.text_length(), parse_word(param)) {
            (Some(n), Some(m)) => n == m,
            (None, None) => true,
            _ => false,
        }
    } else if same(name, "minLength") {
        match (value.text_length(), parse_word(param)) {
            (Some(n), Some(m)) => n >= m,
            _ => false,
        }
    } else if same(name, "maxLength") {
        match (value.text_length(), parse_word(param)) {
            (Some(n), Some(m)) => n <= m,
            _ => false,
        }
    } else if same(name, "totalDigits") {
        match value {
            Value::Decimal(d) => match parse_word(param) {
                Some(n) => d.total_digits() as u64 <= n,
                None => false,
            },
            _ => true,
        }
    } else if same(name, "fractionDigits") {
        match value {
            Value::Decimal(d) => match parse_word(param) {
                Some(n) => d.fraction_digit_count() as u64 <= n,
                None => false,
            },
            _ => true,
        }
    } else if same(name, "minInclusive") || same(name, "minExclusive") || same(
        name,
        "maxInclusive",
    ) || same(name, "maxExclusive") {
        let order = match kind.parse(param, context) {
            Some(bound) => bound.compare(value),
            None => None,
        };
        let inclusive = same(name, "minInclusive") || same(name, "maxInclusive");
        let least = same(name, "minInclusive") || same(name, "minExclusive");
        proof {
            reveal_strlit("minInclusive");
            reveal_strlit("minExclusive");
            reveal_strlit("maxInclusive");
            reveal_strlit("maxExclusive");
            assert("minInclusive"@[1] != "maxInclusive"@[1]);
            assert("minExclusive"@[1] != "maxInclusive"@[1]);
            assert("minInclusive"@[3] != "minExclusive"@[3]);
            assert("minInclusive"@[3] != "maxExclusive"@[3]);
            assert("maxInclusive"@[3] != "maxExclusive"@[3]);
            assert("minExclusive"@[1] != "maxExclusive"@[1]);
        }
        match order {
            Some(Order::Less) => least,
            Some(Order::Equal) => inclusive,
            Some(Order::Greater) => !least,
            None => false,
        }
    } else {
        true
    }
}

/// Whether a value satisfies one of the patterns, where there are any; see
/// [`some_pattern`].
fn is_some_pattern(params: &[(&str, &str)], matched: &[bool]) -> (r: bool)
    requires
        matched@.len() == params@.len(),
    ensures
        r == some_pattern(pairs(params@), matched@),
{
    let ghost all = pairs(params@);
    let mut any: bool = false;
    let mut i: usize = 0;
    while i < params.len()
        invariant
            i <= params.len(),
            all == pairs(params@),
            matched@.len() == params@.len(),
            any == exists|j: int| 0 <= j < i && (#[trigger] all[j]).0 == "pattern"@,
            forall|j: int| 0 <= j < i && (#[trigger] all[j]).0 == "pattern"@ ==> !matched@[j],
        decreases params.len() - i,
    {
        assert(all[i as int].0 == params@[i as int].0@);
        if same(params[i].0, "pattern") {
            any = true;
            if matched[i] {
                return true;
            }
        }
        i += 1;
    }
    !any
}

/// Whether a value is one of those enumerated, where there are any; see
/// [`some_enumerated`].
fn is_some_enumerated(
    kind: TypeKind,
    params: &[(&str, &str)],
    value: &Value,
    context: &DatatypeContext,
) -> (r: bool)
    ensures
        r == some_enumerated(kind, pairs(params@), value@, context@),
{
    let ghost all = pairs(params@);
    let mut any: bool = false;
    let mut i: usize = 0;
    while i < params.len()
        invariant
            i <= params.len(),
            all == pairs(params@),
            any == exists|j: int| 0 <= j < i && (#[trigger] all[j]).0 == "enumeration"@,
            forall|j: int|
                0 <= j < i && (#[trigger] all[j]).0 == "enumeration"@ ==> !denotes(
                    kind,
                    all[j].1,
                    value@,
                    context@,
                ),
        decreases params.len() - i,
    {
        assert(all[i as int] == (params@[i as int].0@, params@[i as int].1@));
        if same(params[i].0, "enumeration") {
            any = true;
            if is_denoted_by(kind, params[i].1, value, context) {
                return true;
            }
        }
        i += 1;
    }
    !any
}

/// Whether a literal denotes a value; see [`denotes`].
fn is_denoted_by(kind: TypeKind, literal: &str, value: &Value, context: &DatatypeContext) -> (r:
    bool)
    ensures
        r == denotes(kind, literal@, value@, context@),
{
    reveal(denotes);
    match kind.parse(literal, context) {
        Some(found) => found.equals(value),
        None => false,
    }
}

/// Whether a value satisfies each of the other facets; see [`all_facets`].
fn are_all_facets(
    kind: TypeKind,
    params: &[(&str, &str)],
    value: &Value,
    context: &DatatypeContext,
) -> (r: bool)
    ensures
        r == all_facets(kind, pairs(params@), value@, context@),
{
    let ghost all = pairs(params@);
    let mut i: usize = 0;
    while i < params.len()
        invariant
            i <= params.len(),
            all == pairs(params@),
            forall|j: int|
                0 <= j < i && (#[trigger] all[j]).0 != "pattern"@ && all[j].0 != "enumeration"@
                    ==> facet_holds(kind, all[j].0, all[j].1, value@, context@),
        decreases params.len() - i,
    {
        let (name, param) = params[i];
        assert(all[i as int] == (name@, param@));
        if !same(name, "pattern") && !same(name, "enumeration") {
            if !facet_satisfied(kind, name, param, value, context) {
                assert(!facet_holds(kind, all[i as int].0, all[i as int].1, value@, context@));
                return false;
            }
        }
        i += 1;
    }
    true
}

/// Whether a text is a value of a datatype that satisfies the facets, given of each
/// parameter whether it is a pattern that matches; see [`xsd_accepts_given`].
pub fn matches_given(
    datatype: &str,
    params: &[(&str, &str)],
    value: &str,
    context: &DatatypeContext,
    matched: &[bool],
) -> (r: bool)
    requires
        matched@.len() == params@.len(),
    ensures
        r == xsd_accepts_given(datatype@, pairs(params@), value@, context@, matched@),
{
    let kind = match TypeKind::lookup(datatype) {
        Some(kind) => kind,
        None => {
            return false;
        },
    };
    let parsed = match kind.parse(value, context) {
        Some(parsed) => parsed,
        None => {
            return false;
        },
    };
    is_some_pattern(params, matched) && is_some_enumerated(kind, params, &parsed, context)
        && are_all_facets(kind, params, &parsed, context)
}

/// The XML Schema datatype library.
pub struct XsdLibrary;

/// The first problem of a prefix is that of all.
proof fn lemma_facets_first(kind: TypeKind, params: Seq<(Text, Text)>, n: nat)
    requires
        n <= params.len(),
        facets_problem(kind, params, n) is Some,
    ensures
        facets_problem(kind, params, params.len()) == facets_problem(kind, params, n),
    decreases params.len() - n,
{
    if n < params.len() {
        lemma_facets_first(kind, params, n + 1);
    }
}

impl DatatypeLibrary for XsdLibrary {
    open spec fn model(&self) -> LibraryModel {
        xsd_model()
    }

    fn validate_params(&self, datatype: &str, params: &[(&str, &str)]) -> (r: Result<(), String>) {
        let kind = match TypeKind::lookup(datatype) {
            Some(kind) => kind,
            None => {
                return Err(concat3("unknown XSD datatype `", datatype, "`"));
            },
        };
        let ghost all = pairs(params@);
        let mut i: usize = 0;
        while i < params.len()
            invariant
                i <= params.len(),
                all == pairs(params@),
                kind_of(datatype@) == Some(kind),
                facets_problem(kind, all, i as nat) is None,
            decreases params.len() - i,
        {
            let (name, value) = params[i];
            assert(all[i as int] == (name@, value@));
            let error = if same(name, "pattern") {
                let pattern = concat3("^(?:", value, ")$");
                regex_problem(pattern.as_str())
            } else {
                None
            };
            let checked = validate_facet(kind, name, value, error);
            if checked.is_err() {
                proof {
                    lemma_facets_first(kind, all, (i + 1) as nat);
                }
                return checked;
            }
            i += 1;
        }
        Ok(())
    }

    fn matches(
        &self,
        datatype: &str,
        params: &[(&str, &str)],
        value: &str,
        context: &DatatypeContext,
    ) -> (r: bool) {
        let ghost all = pairs(params@);
        let chars = to_chars(value);
        let inner = from_chars(trimmed(chars.as_slice()));
        let mut matched: Vec<bool> = Vec::new();
        let mut i: usize = 0;
        while i < params.len()
            invariant
                i <= params.len(),
                all == pairs(params@),
                inner@ == trim(value@),
                matched.len() == i,
                forall|j: int|
                    0 <= j < i ==> #[trigger] matched@[j] == matched_patterns(all, value@)[j],
            decreases params.len() - i,
        {
            let (name, param) = params[i];
            assert(all[i as int] == (name@, param@));
            let hit = if same(name, "pattern") {
                let pattern = concat3("^(?:", param, ")$");
                match regex_is_match(pattern.as_str(), inner.as_str()) {
                    Some(hit) => hit,
                    None => false,
                }
            } else {
                false
            };
            matched.push(hit);
            i += 1;
        }
        assert(matched@ =~= matched_patterns(all, value@));
        matches_given(datatype, params, value, context, matched.as_slice())
    }

    fn values_equal(
        &self,
        datatype: &str,
        expected: &str,
        expected_context: &DatatypeContext,
        actual: &str,
        actual_context: &DatatypeContext,
    ) -> (r: bool) {
        let kind = match TypeKind::lookup(datatype) {
            Some(kind) => kind,
            None => {
                return false;
            },
        };
        match (kind.parse(expected, expected_context), kind.parse(actual, actual_context)) {
            (Some(left), Some(right)) => left.equals(&right),
            _ => false,
        }
    }
}

// ---------------------------------------------------------------------
// Values that are the same
// ---------------------------------------------------------------------

/// Values are the same both ways round, and what is the same as the same value is the same.
/// Each is the same as itself, save one that is ordered by what is no number.
pub proof fn law_same_is_an_equivalence(a: ValueModel, b: ValueModel, c: ValueModel)
    ensures
        same_value(a, b) == same_value(b, a),
        same_value(a, b) && same_value(b, c) ==> same_value(a, c),
        same_value(a, a) <==> ordering_key(a) != Some(Float::NaN),
{
    match (a, b) {
        (ValueModel::Decimal(x), ValueModel::Decimal(y)) => {
            let places = x.fraction.len() + y.fraction.len();
            lemma_equal_at(x, y, places);
            lemma_equal_at(y, x, places);
            match c {
                ValueModel::Decimal(z) => {
                    let more = places + z.fraction.len();
                    lemma_equal_at(x, y, more);
                    lemma_equal_at(y, z, more);
                    lemma_equal_at(x, z, more);
                },
                _ => {},
            }
        },
        _ => {},
    }
}

/// Where a value compares with a bound, it is on one side of it: it satisfies a facet that
/// has it at least the bound just where it does not satisfy one that has it below, and the
/// other way round.
pub proof fn law_bounds_are_complementary(
    kind: TypeKind,
    param: Text,
    value: ValueModel,
    bindings: Bindings,
)
    requires
        denoted(kind, param, bindings) is Some,
        value_order(denoted(kind, param, bindings)->0, value) is Some,
    ensures
        facet_holds(kind, "minInclusive"@, param, value, bindings) <==> !facet_holds(
            kind,
            "maxExclusive"@,
            param,
            value,
            bindings,
        ),
        facet_holds(kind, "minExclusive"@, param, value, bindings) <==> !facet_holds(
            kind,
            "maxInclusive"@,
            param,
            value,
            bindings,
        ),
{
    lemma_bound_names();
    assert(order_facet("minInclusive"@));
    assert(order_facet("minExclusive"@));
    assert(order_facet("maxInclusive"@));
    assert(order_facet("maxExclusive"@));
}

/// The names of the facets that bound a value are distinct, and no other facets have them.
proof fn lemma_bound_names()
    ensures
        forall|name: Text| #[trigger]
            order_facet(name) ==> name != "length"@ && name != "minLength"@ && name
                != "maxLength"@ && name != "totalDigits"@ && name != "fractionDigits"@,
        "minInclusive"@ != "minExclusive"@,
        "minInclusive"@ != "maxInclusive"@,
        "minInclusive"@ != "maxExclusive"@,
        "minExclusive"@ != "maxInclusive"@,
        "minExclusive"@ != "maxExclusive"@,
        "maxInclusive"@ != "maxExclusive"@,
{
    reveal_strlit("length");
    reveal_strlit("minLength");
    reveal_strlit("maxLength");
    reveal_strlit("totalDigits");
    reveal_strlit("fractionDigits");
    reveal_strlit("minInclusive");
    reveal_strlit("minExclusive");
    reveal_strlit("maxInclusive");
    reveal_strlit("maxExclusive");
    assert("minInclusive"@[1] == 'i');
    assert("maxInclusive"@[1] == 'a');
    assert("minExclusive"@[1] == 'i');
    assert("maxExclusive"@[1] == 'a');
    assert("minExclusive"@[3] == 'E');
    assert("minInclusive"@[3] == 'I');
    assert("maxExclusive"@[3] == 'E');
    assert("maxInclusive"@[3] == 'I');
    assert("totalDigits"@[0] == 't');
    assert("fractionDigits"@[0] == 'f');
    assert("length"@.len() == 6);
    assert("minLength"@.len() == 9);
    assert("maxLength"@.len() == 9);
}

} // verus!
