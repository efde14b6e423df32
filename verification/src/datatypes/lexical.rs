//! Which texts the XML Schema datatypes take, and which of them are the same value.
use vstd::prelude::*;

use super::calendar::lemma_split_at;
use super::facets::lemma_trim_kept;
use super::registry::{resolved, Bindings};
use super::temporal::TemporalShape;
use super::xsd::{
    base64_groups, continuing, denoted, dense, hex_binary, kind_of, nmtoken_given, padding, subtag,
    subtags, upper, uppercase, with_spaces, xsd_accepts, xsd_same, BinaryShape, StringShape,
    TypeKind,
};
use crate::compact_writing::{lemma_occurs, lemma_split};
use crate::syntax::{ncname, xid_continue, xid_start};
use crate::text::{
    collapse, law_collapse_is_idempotent, law_words_stand_between_spaces, tokens, trim,
    white_space, Text,
};

verus! {

/// No facets.
pub open spec fn bare() -> Seq<(Text, Text)> {
    Seq::empty()
}

/// What tells the names of the datatypes apart.
proof fn lemma_type_names()
    ensures
        "string"@.len() == 6 && "string"@[0] == 's',
        "normalizedString"@.len() == 16,
        "token"@.len() == 5 && "token"@[0] == 't',
        "language"@.len() == 8 && "language"@[0] == 'l',
        "Name"@.len() == 4 && "Name"@[0] == 'N',
        "NCName"@.len() == 6 && "NCName"@[0] == 'N',
        "ID"@.len() == 2,
        "IDREF"@.len() == 5 && "IDREF"@[0] == 'I',
        "ENTITY"@.len() == 6 && "ENTITY"@[0] == 'E',
        "NMTOKEN"@.len() == 7 && "NMTOKEN"@[0] == 'N',
        "anyURI"@.len() == 6 && "anyURI"@[0] == 'a',
        "NMTOKENS"@.len() == 8 && "NMTOKENS"@[0] == 'N' && "NMTOKENS"@[1] == 'M',
        "IDREFS"@.len() == 6 && "IDREFS"@[0] == 'I',
        "ENTITIES"@.len() == 8 && "ENTITIES"@[0] == 'E',
        "boolean"@.len() == 7 && "boolean"@[0] == 'b',
        "decimal"@.len() == 7 && "decimal"@[0] == 'd',
        "float"@.len() == 5 && "float"@[0] == 'f',
        "double"@.len() == 6 && "double"@[0] == 'd',
        "duration"@.len() == 8 && "duration"@[0] == 'd' && "duration"@[1] == 'u',
        "dateTime"@.len() == 8 && "dateTime"@[0] == 'd' && "dateTime"@[1] == 'a',
        "time"@.len() == 4 && "time"@[0] == 't',
        "date"@.len() == 4 && "date"@[0] == 'd',
        "gYearMonth"@.len() == 10,
        "gYear"@.len() == 5 && "gYear"@[0] == 'g',
        "gMonthDay"@.len() == 9 && "gMonthDay"@[0] == 'g',
        "gDay"@.len() == 4 && "gDay"@[0] == 'g',
        "gMonth"@.len() == 6 && "gMonth"@[0] == 'g',
        "hexBinary"@.len() == 9 && "hexBinary"@[0] == 'h',
        "base64Binary"@.len() == 12,
        "QName"@.len() == 5 && "QName"@[0] == 'Q',
        "NOTATION"@.len() == 8 && "NOTATION"@[0] == 'N' && "NOTATION"@[1] == 'O',
{
    reveal_strlit("string");
    reveal_strlit("normalizedString");
    reveal_strlit("token");
    reveal_strlit("language");
    reveal_strlit("Name");
    reveal_strlit("NCName");
    reveal_strlit("ID");
    reveal_strlit("IDREF");
    reveal_strlit("ENTITY");
    reveal_strlit("NMTOKEN");
    reveal_strlit("anyURI");
    reveal_strlit("NMTOKENS");
    reveal_strlit("IDREFS");
    reveal_strlit("ENTITIES");
    reveal_strlit("boolean");
    reveal_strlit("decimal");
    reveal_strlit("float");
    reveal_strlit("double");
    reveal_strlit("duration");
    reveal_strlit("dateTime");
    reveal_strlit("time");
    reveal_strlit("date");
    reveal_strlit("gYearMonth");
    reveal_strlit("gYear");
    reveal_strlit("gMonthDay");
    reveal_strlit("gDay");
    reveal_strlit("gMonth");
    reveal_strlit("hexBinary");
    reveal_strlit("base64Binary");
    reveal_strlit("QName");
    reveal_strlit("NOTATION");
}

/// The kinds of the datatypes.
#[verifier::rlimit(60)]
pub proof fn lemma_kinds()
    ensures
        kind_of("string"@) == Some(TypeKind::StringLike(StringShape::Any)),
        kind_of("normalizedString"@) == Some(TypeKind::StringLike(StringShape::Normalized)),
        kind_of("token"@) == Some(TypeKind::StringLike(StringShape::Token)),
        kind_of("language"@) == Some(TypeKind::StringLike(StringShape::Language)),
        kind_of("Name"@) == Some(TypeKind::StringLike(StringShape::Name)),
        kind_of("NCName"@) == Some(TypeKind::StringLike(StringShape::NCName)),
        kind_of("ID"@) == Some(TypeKind::StringLike(StringShape::NCName)),
        kind_of("IDREF"@) == Some(TypeKind::StringLike(StringShape::NCName)),
        kind_of("ENTITY"@) == Some(TypeKind::StringLike(StringShape::NCName)),
        kind_of("NMTOKEN"@) == Some(TypeKind::StringLike(StringShape::Nmtoken)),
        kind_of("anyURI"@) == Some(TypeKind::StringLike(StringShape::AnyUri)),
        kind_of("NMTOKENS"@) == Some(TypeKind::ListOf(StringShape::Nmtoken)),
        kind_of("IDREFS"@) == Some(TypeKind::ListOf(StringShape::NCName)),
        kind_of("ENTITIES"@) == Some(TypeKind::ListOf(StringShape::NCName)),
        kind_of("boolean"@) == Some(TypeKind::Boolean),
        kind_of("float"@) == Some(TypeKind::Float),
        kind_of("double"@) == Some(TypeKind::Double),
        kind_of("duration"@) == Some(TypeKind::Duration),
        kind_of("dateTime"@) == Some(TypeKind::Temporal(TemporalShape::DateTime)),
        kind_of("time"@) == Some(TypeKind::Temporal(TemporalShape::Time)),
        kind_of("date"@) == Some(TypeKind::Temporal(TemporalShape::Date)),
        kind_of("gYearMonth"@) == Some(TypeKind::Temporal(TemporalShape::GYearMonth)),
        kind_of("gYear"@) == Some(TypeKind::Temporal(TemporalShape::GYear)),
        kind_of("gMonthDay"@) == Some(TypeKind::Temporal(TemporalShape::GMonthDay)),
        kind_of("gDay"@) == Some(TypeKind::Temporal(TemporalShape::GDay)),
        kind_of("gMonth"@) == Some(TypeKind::Temporal(TemporalShape::GMonth)),
        kind_of("hexBinary"@) == Some(TypeKind::Binary(BinaryShape::Hex)),
        kind_of("base64Binary"@) == Some(TypeKind::Binary(BinaryShape::Base64)),
        kind_of("QName"@) == Some(TypeKind::QNameLike),
        kind_of("NOTATION"@) == Some(TypeKind::QNameLike),
{
    lemma_type_names();
}

/// The kind of decimal numbers.
pub proof fn lemma_decimal_kind()
    ensures
        kind_of("decimal"@) == Some(
            TypeKind::Decimal { integer_only: false, min: None, max: None },
        ),
{
    lemma_type_names();
}

/// Without facets, a datatype takes the texts that denote a value.
pub proof fn lemma_bare(datatype: Text, t: Text, bindings: Bindings)
    requires
        kind_of(datatype) is Some,
    ensures
        xsd_accepts(datatype, bare(), t, bindings) <==> denoted(
            kind_of(datatype)->0,
            t,
            bindings,
        ) is Some,
{
}

/// Whether a character is a letter or a digit.
pub open spec fn letter_or_digit(c: char) -> bool {
    'a' <= c <= 'z' || 'A' <= c <= 'Z' || '0' <= c <= '9'
}

/// Whether a character is a digit in base sixteen.
pub open spec fn sixteenth(c: char) -> bool {
    'a' <= c <= 'f' || 'A' <= c <= 'F' || '0' <= c <= '9'
}

/// Whether two characters are the same but for their case.
pub open spec fn same_letter(a: char, b: char) -> bool {
    a == b || 'a' <= a <= 'z' && b as u32 + 32 == a as u32 || 'a' <= b <= 'z' && a as u32 + 32
        == b as u32
}

/// Whether two characters are the same, or both are white space other than wide space.
pub open spec fn same_mark(a: char, b: char) -> bool {
    a == b || (a == ' ' || a == '\t' || a == '\n' || a == '\r') && (b == ' ' || b == '\t' || b
        == '\n' || b == '\r')
}

/// The texts of `string`, `normalizedString`, `token` and `anyURI`: all, and two are the same
/// where they are equal, equal but for the sort of white space, or the same words.
pub proof fn law_strings(a: Text, b: Text, bindings: Bindings, other: Bindings)
    ensures
        xsd_accepts("string"@, bare(), a, bindings),
        xsd_accepts("normalizedString"@, bare(), a, bindings),
        xsd_accepts("token"@, bare(), a, bindings),
        xsd_accepts("anyURI"@, bare(), a, bindings),
        xsd_same("string"@, a, bindings, b, other) <==> a == b,
        xsd_same("normalizedString"@, a, bindings, b, other) <==> a.len() == b.len() && (forall|
            i: int,
        |
            0 <= i < a.len() ==> same_mark(#[trigger] a[i], b[i])),
        xsd_same("token"@, a, bindings, b, other) <==> tokens(a) == tokens(b),
        xsd_same("anyURI"@, a, bindings, b, other) <==> tokens(a) == tokens(b),
{
    lemma_kinds();
    lemma_bare("string"@, a, bindings);
    lemma_bare("normalizedString"@, a, bindings);
    lemma_bare("token"@, a, bindings);
    lemma_bare("anyURI"@, a, bindings);
    law_collapse_is_idempotent(a);
    law_collapse_is_idempotent(b);
    let x = with_spaces(a);
    let y = with_spaces(b);
    if a.len() == b.len() && forall|i: int| 0 <= i < a.len() ==> same_mark(#[trigger] a[i], b[i]) {
        assert forall|i: int| 0 <= i < x.len() implies x[i] == y[i] by {
            assert(same_mark(a[i], b[i]));
        }
        assert(x =~= y);
    }
    if x == y {
        assert(x.len() == y.len());
        assert forall|i: int| 0 <= i < a.len() implies same_mark(#[trigger] a[i], b[i]) by {
            assert(x[i] == y[i]);
        }
    }
}

/// The texts of `boolean`: `true` and `1`, which are the same, and `false` and `0`, which are,
/// each with white space around it or none.
pub proof fn law_booleans(a: Text, b: Text, bindings: Bindings, other: Bindings)
    ensures
        ({
            let yes = |t: Text| trim(t) == "true"@ || trim(t) == "1"@;
            let no = |t: Text| trim(t) == "false"@ || trim(t) == "0"@;
            &&& xsd_accepts("boolean"@, bare(), a, bindings) <==> yes(a) || no(a)
            &&& xsd_same("boolean"@, a, bindings, b, other) <==> yes(a) && yes(b) || no(a) && no(b)
        }),
{
    lemma_kinds();
    lemma_bare("boolean"@, a, bindings);
    reveal_strlit("true");
    reveal_strlit("false");
    reveal_strlit("1");
    reveal_strlit("0");
    assert("true"@.len() == 4);
    assert("false"@.len() == 5);
    assert("1"@.len() == 1 && "1"@[0] == '1');
    assert("0"@.len() == 1 && "0"@[0] == '0');
}

/// The texts of `hexBinary`: an even number of digits in base sixteen, in either case, which
/// makes no difference.
pub proof fn law_hexadecimal_octets(a: Text, b: Text, bindings: Bindings, other: Bindings)
    ensures
        xsd_accepts("hexBinary"@, bare(), a, bindings) <==> trim(a).len() % 2 == 0 && (forall|
            i: int,
        |
            0 <= i < trim(a).len() ==> sixteenth(#[trigger] trim(a)[i])),
        xsd_accepts("hexBinary"@, bare(), a, bindings) && xsd_accepts(
            "hexBinary"@,
            bare(),
            b,
            other,
        ) ==> (xsd_same("hexBinary"@, a, bindings, b, other) <==> trim(a).len() == trim(b).len()
            && (forall|i: int|
            0 <= i < trim(a).len() ==> same_letter(#[trigger] trim(a)[i], trim(b)[i]))),
{
    lemma_kinds();
    lemma_bare("hexBinary"@, a, bindings);
    lemma_bare("hexBinary"@, b, other);
    let x = trim(a);
    let y = trim(b);
    assert forall|i: int| 0 <= i < x.len() implies (crate::text::hex_digit(#[trigger] x[i])
        <==> sixteenth(x[i])) by {}
    if hex_binary(x) && hex_binary(y) && x.len() == y.len() {
        assert forall|i: int| 0 <= i < x.len() implies (upper(#[trigger] x[i]) == upper(y[i])
            <==> same_letter(x[i], y[i])) by {
            assert(crate::text::hex_digit(x[i]));
            assert(crate::text::hex_digit(y[i]));
        }
        if forall|i: int| 0 <= i < x.len() ==> same_letter(#[trigger] x[i], y[i]) {
            assert(uppercase(x) =~= uppercase(y));
        }
        if uppercase(x) == uppercase(y) {
            assert forall|i: int| 0 <= i < x.len() implies same_letter(#[trigger] x[i], y[i]) by {
                assert(uppercase(x)[i] == uppercase(y)[i]);
            }
        }
    }
    assert(uppercase(x).len() == x.len() && uppercase(y).len() == y.len());
}

/// The names of qualified names: a name with a prefix is a value where the prefix is bound, and
/// two are the same where both have the same name in the same namespace, whatever the
/// prefixes. A name without a prefix is in the namespace that is bound to the empty one, or in
/// none.
pub proof fn law_qualified_names(
    prefix: Text,
    local: Text,
    second: Text,
    name: Text,
    bindings: Bindings,
    other: Bindings,
)
    requires
        ncname(local),
        ncname(name),
        ncname(prefix),
        ncname(second),
        !prefix.contains(':'),
        !second.contains(':'),
        !name.contains(':'),
        !white_space(prefix[0]),
        !white_space(local.last()),
        !white_space(second[0]),
        !white_space(name.last()),
        !white_space(name[0]),
    ensures
        ({
            let a = prefix + seq![':'] + local;
            let b = second + seq![':'] + name;
            &&& xsd_accepts("QName"@, bare(), a, bindings) <==> resolved(bindings, prefix) is Some
            &&& xsd_same("QName"@, a, bindings, b, other) <==> local == name && resolved(
                bindings,
                prefix,
            ) is Some && resolved(bindings, prefix) == resolved(other, second)
            &&& xsd_accepts("QName"@, bare(), name, bindings)
            &&& xsd_same("QName"@, a, bindings, name, other) <==> local == name && resolved(
                bindings,
                prefix,
            ) is Some && resolved(bindings, prefix)->0 == (match resolved(other, Seq::empty()) {
                Some(uri) => uri,
                None => Seq::empty(),
            })
            &&& xsd_accepts("NOTATION"@, bare(), a, bindings) <==> resolved(
                bindings,
                prefix,
            ) is Some
        }),
{
    lemma_kinds();
    let a = prefix + seq![':'] + local;
    let b = second + seq![':'] + name;
    lemma_bare("QName"@, a, bindings);
    lemma_bare("QName"@, name, bindings);
    lemma_bare("NOTATION"@, a, bindings);
    assert(a[0] == prefix[0] && a.last() == local.last());
    assert(b[0] == second[0] && b.last() == name.last());
    lemma_trim_kept(a);
    lemma_trim_kept(b);
    lemma_trim_kept(name);
    lemma_split(prefix, local);
    lemma_split(second, name);
    lemma_occurs(name, ':');
}

/// The texts of the datatypes of names, whatever white space stands around them. Those of
/// `ID`, `IDREF` and `ENTITY` are the texts of `NCName`, which are the names of elements; those
/// of `Name` may hold colons, and those of `NMTOKEN` may start with any of their characters.
pub proof fn law_names(t: Text, bindings: Bindings)
    ensures
        ({
            let w = collapse(t);
            let goes_on = |c: char|
                xid_continue(c) || c == '.' || c == '-' || c == ':' || c == '_';
            &&& xsd_accepts("NCName"@, bare(), t, bindings) <==> ncname(w)
            &&& xsd_accepts("ID"@, bare(), t, bindings) <==> ncname(w)
            &&& xsd_accepts("IDREF"@, bare(), t, bindings) <==> ncname(w)
            &&& xsd_accepts("ENTITY"@, bare(), t, bindings) <==> ncname(w)
            &&& xsd_accepts("Name"@, bare(), t, bindings) <==> w.len() > 0 && (xid_start(w[0])
                || w[0] == ':' || w[0] == '_') && (forall|i: int|
                1 <= i < w.len() ==> goes_on(#[trigger] w[i]))
            &&& xsd_accepts("NMTOKEN"@, bare(), t, bindings) <==> w.len() > 0 && (forall|i: int|
                0 <= i < w.len() ==> goes_on(#[trigger] w[i]))
            &&& xsd_accepts("NCName"@, bare(), t, bindings) ==> xsd_accepts(
                "Name"@,
                bare(),
                t,
                bindings,
            )
        }),
{
    lemma_kinds();
    lemma_bare("NCName"@, t, bindings);
    lemma_bare("ID"@, t, bindings);
    lemma_bare("IDREF"@, t, bindings);
    lemma_bare("ENTITY"@, t, bindings);
    lemma_bare("Name"@, t, bindings);
    lemma_bare("NMTOKEN"@, t, bindings);
    let w = collapse(t);
    if ncname(w) {
        let given = Seq::new(w.len(), |i: int| xid_continue(w[i]));
        assert forall|i: int| 1 <= i < w.len() implies xid_continue(#[trigger] w[i]) || w[i] == '-'
            || w[i] == '.' by {
            assert(given[i] == xid_continue(w[i]));
        }
    }
}

/// The texts of the datatypes of lists: words, each of which the datatype of their items takes.
/// Two lists are the same where their words are.
pub proof fn law_lists_of_names(a: Text, b: Text, bindings: Bindings, other: Bindings)
    ensures
        xsd_accepts("IDREFS"@, bare(), a, bindings) <==> (forall|i: int|
            0 <= i < tokens(a).len() ==> ncname(#[trigger] tokens(a)[i])),
        xsd_accepts("ENTITIES"@, bare(), a, bindings) <==> (forall|i: int|
            0 <= i < tokens(a).len() ==> ncname(#[trigger] tokens(a)[i])),
        xsd_accepts("NMTOKENS"@, bare(), a, bindings) <==> (forall|i: int|
            0 <= i < tokens(a).len() ==> nmtoken_given(
                #[trigger] tokens(a)[i],
                continuing(tokens(a)[i]),
            )),
        xsd_accepts("IDREFS"@, bare(), a, bindings) && xsd_accepts("IDREFS"@, bare(), b, other)
            ==> (xsd_same("IDREFS"@, a, bindings, b, other) <==> tokens(a) == tokens(b)),
        xsd_accepts("NMTOKENS"@, bare(), a, bindings) && xsd_accepts("NMTOKENS"@, bare(), b, other)
            ==> (xsd_same("NMTOKENS"@, a, bindings, b, other) <==> tokens(a) == tokens(b)),
{
    lemma_kinds();
    lemma_bare("IDREFS"@, a, bindings);
    lemma_bare("IDREFS"@, b, other);
    lemma_bare("ENTITIES"@, a, bindings);
    lemma_bare("NMTOKENS"@, a, bindings);
    lemma_bare("NMTOKENS"@, b, other);
}

/// A text of a datatype is the same as itself only where the datatype takes it, two that are
/// the same are both taken, and a datatype that does not exist takes nothing.
pub proof fn law_same_values_are_values(
    datatype: Text,
    a: Text,
    b: Text,
    bindings: Bindings,
    other: Bindings,
)
    ensures
        xsd_same(datatype, a, bindings, b, other) ==> xsd_accepts(datatype, bare(), a, bindings)
            && xsd_accepts(datatype, bare(), b, other),
        kind_of(datatype) is None ==> !xsd_accepts(datatype, bare(), a, bindings),
{
    if kind_of(datatype) is Some {
        lemma_bare(datatype, a, bindings);
        lemma_bare(datatype, b, other);
    }
}

// ---------------------------------------------------------------------
// Language tags and octets in base 64
// ---------------------------------------------------------------------

/// Whether a text holds no white space.
pub open spec fn solid(t: Text) -> bool {
    forall|i: int| 0 <= i < t.len() ==> !white_space(#[trigger] t[i])
}

/// A text without white space is one word.
proof fn lemma_solid(t: Text)
    requires
        solid(t),
        t.len() > 0,
    ensures
        collapse(t) == t,
        trim(t) == t,
{
    assert forall|i: int| 0 <= i < t.len() implies #[trigger] t[i] != ' ' && t[i] != '\t' && t[i]
        != '\n' && t[i] != '\r' && t[i] as u32 != 12 by {
        assert(!white_space(t[i]));
    }
    law_words_stand_between_spaces(t, ' ', Seq::empty());
    assert(tokens(t) == seq![t]);
    assert(seq![t].len() == 1 && seq![t][0] == t);
    assert(!white_space(t[0]) && !white_space(t.last()));
    lemma_trim_kept(t);
}

/// The texts of `language`: one to eight letters, and behind them any number of subtags, each a
/// hyphen and one to eight letters or digits.
pub proof fn law_languages(t: Text, part: Text, bindings: Bindings)
    requires
        solid(t),
        solid(part),
        t.len() > 0,
        !part.contains('-'),
    ensures
        !t.contains('-') ==> (xsd_accepts("language"@, bare(), t, bindings) <==> t.len() <= 8 && (
        forall|i: int|
            0 <= i < t.len() ==> 'a' <= (#[trigger] t[i]) <= 'z' || 'A' <= t[i] <= 'Z')),
        xsd_accepts("language"@, bare(), t + seq!['-'] + part, bindings) <==> xsd_accepts(
            "language"@,
            bare(),
            t,
            bindings,
        ) && 0 < part.len() <= 8 && (forall|i: int|
            0 <= i < part.len() ==> letter_or_digit(#[trigger] part[i])),
{
    let w = t + seq!['-'] + part;
    assert forall|i: int| 0 <= i < w.len() implies !white_space(#[trigger] w[i]) by {
        if i < t.len() {
            assert(w[i] == t[i]);
        } else if i > t.len() {
            assert(w[i] == part[i - t.len() - 1]);
        }
    }
    lemma_kinds();
    lemma_solid(t);
    lemma_solid(w);
    lemma_bare("language"@, t, bindings);
    lemma_bare("language"@, w, bindings);
    lemma_occurs(t, '-');
    lemma_occurs(part, '-');
    if t.contains('-') {
        let k = crate::text::position(t, '-') as int;
        let first = t.take(k);
        let rest = t.skip(k + 1);
        lemma_first_hyphen(t);
        lemma_split_at(first, '-', rest + seq!['-'] + part);
        assert(w =~= first + seq!['-'] + (rest + seq!['-'] + part));
        lemma_subtags(rest, part);
    } else {
        lemma_split_at(t, '-', part);
    }
    assert(subtag(part) <==> 0 < part.len() <= 8 && forall|i: int|
        0 <= i < part.len() ==> letter_or_digit(#[trigger] part[i]));
}

/// A text at its first hyphen.
proof fn lemma_first_hyphen(t: Text)
    requires
        t.contains('-'),
    ensures
        ({
            let k = crate::text::position(t, '-') as int;
            0 <= k < t.len() && t == t.take(k) + seq!['-'] + t.skip(k + 1) && !t.take(k).contains(
                '-',
            )
        }),
{
    lemma_occurs(t, '-');
    let k = crate::text::position(t, '-') as int;
    lemma_position_first(t, '-');
    assert(t =~= t.take(k) + seq!['-'] + t.skip(k + 1));
    if t.take(k).contains('-') {
        let i = choose|i: int| 0 <= i < k && t.take(k)[i] == '-';
        assert(t[i] == '-');
    }
}

/// A character stands at its position, and nowhere before.
proof fn lemma_position_first(t: Text, c: char)
    requires
        crate::text::position(t, c) < t.len(),
    ensures
        t[crate::text::position(t, c) as int] == c,
        forall|i: int| 0 <= i < crate::text::position(t, c) ==> #[trigger] t[i] != c,
    decreases t.len(),
{
    if t[0] != c {
        let rest = t.drop_first();
        lemma_position_first(rest, c);
        assert forall|i: int| 0 <= i < crate::text::position(t, c) implies #[trigger] t[i] != c by {
            if i > 0 {
                assert(rest[i - 1] == t[i]);
            }
        }
    }
}

/// One more subtag behind others.
proof fn lemma_subtags(t: Text, part: Text)
    requires
        !part.contains('-'),
    ensures
        subtags(t + seq!['-'] + part) <==> subtags(t) && subtag(part),
    decreases t.len(),
{
    let w = t + seq!['-'] + part;
    lemma_occurs(t, '-');
    lemma_occurs(part, '-');
    if t.contains('-') {
        let k = crate::text::position(t, '-') as int;
        let first = t.take(k);
        let rest = t.skip(k + 1);
        lemma_first_hyphen(t);
        lemma_split_at(first, '-', rest + seq!['-'] + part);
        assert(w =~= first + seq!['-'] + (rest + seq!['-'] + part));
        lemma_subtags(rest, part);
    } else {
        lemma_split_at(t, '-', part);
        assert(subtags(part) == subtag(part));
        assert(subtags(t) == subtag(t));
    }
}

/// Whether a character is a digit in base sixty-four.
pub open spec fn sixty_fourth(c: char) -> bool {
    letter_or_digit(c) || c == '+' || c == '/'
}

/// The texts of `base64Binary`, without white space: groups of four digits in base sixty-four,
/// of which the last may end in one or two equals signs.
pub proof fn law_base_sixty_four(t: Text, bindings: Bindings)
    requires
        solid(t),
        t.len() > 0,
    ensures
        xsd_accepts("base64Binary"@, bare(), t, bindings) <==> t.len() % 4 == 0 && (exists|k: nat|
            #[trigger] padded_by(t, k) && k <= 2),
{
    lemma_kinds();
    lemma_solid(t);
    lemma_bare("base64Binary"@, t, bindings);
    lemma_dense(t);
    lemma_padding(t);
    if base64_groups(t) {
        assert(padded_by(t, padding(t)));
    }
    if exists|k: nat| #[trigger] padded_by(t, k) && k <= 2 {
        let k = choose|k: nat| #[trigger] padded_by(t, k) && k <= 2;
        if padding(t) > k {
            assert(t[t.len() - k - 1] == '=');
            assert(sixty_fourth(t[t.len() - k - 1]));
        }
        if padding(t) < k {
            assert(t[t.len() - padding(t) - 1] == '=');
        }
        assert(padding(t) == k);
    }
}

/// Whether a text is of digits in base sixty-four, save so many equals signs at its end.
pub open spec fn padded_by(t: Text, k: nat) -> bool {
    k <= t.len() && (forall|i: int|
        0 <= i < t.len() - k ==> sixty_fourth(#[trigger] t[i])) && (forall|i: int|
        t.len() - k <= i < t.len() ==> #[trigger] t[i] == '=')
}

/// A text without white space is kept.
proof fn lemma_dense(t: Text)
    requires
        solid(t),
    ensures
        dense(t) == t,
    decreases t.len(),
{
    if t.len() > 0 {
        let rest = t.drop_last();
        assert forall|i: int| 0 <= i < rest.len() implies !white_space(#[trigger] rest[i]) by {
            assert(rest[i] == t[i]);
        }
        lemma_dense(rest);
        assert(!white_space(t[t.len() - 1]));
        assert(rest.push(t.last()) =~= t);
    }
}

/// The equals signs at the end are so many and no more.
proof fn lemma_padding(t: Text)
    ensures
        padding(t) <= t.len(),
        forall|i: int| t.len() - padding(t) <= i < t.len() ==> #[trigger] t[i] == '=',
        padding(t) < t.len() ==> t[t.len() - padding(t) - 1] != '=',
    decreases t.len(),
{
    if t.len() > 0 && t.last() == '=' {
        let rest = t.drop_last();
        lemma_padding(rest);
        assert forall|i: int| t.len() - padding(t) <= i < t.len() implies #[trigger] t[i]
            == '=' by {
            if i < rest.len() {
                assert(rest[i] == t[i]);
            }
        }
    }
}

} // verus!
