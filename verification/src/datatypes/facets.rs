//! What the XML Schema datatypes and their facets come to: texts and numbers, and how one
//! verdict goes with another.
use vstd::prelude::*;

use super::binary64::unsigned_part;
use super::decimal::{
    decimal_of, scaled_to, whole_value, without_leading_zeros, without_trailing_zeros,
    DecimalModel,
};
use super::natural::power;
use super::registry::Bindings;
use super::xsd::{
    all_facets, denoted, denotes, facet_holds, kind_of, length_of, matched_patterns, regex_match,
    some_enumerated, some_pattern, with_spaces, word, xsd_accepts, xsd_same, StringShape, TypeKind,
    ValueModel,
};
use crate::numbers::{decimal, digit_of, law_decimal_denotes, value_of};
use crate::text::{
    all_digits, collapse, digit, lemma_position, split_once, tokens, trim, white_space, Text,
};

verus! {

// ---------------------------------------------------------------------
// Names
// ---------------------------------------------------------------------

/// The names of the facets are distinct.
pub proof fn lemma_facet_names()
    ensures
        "length"@ != "minLength"@,
        "length"@ != "maxLength"@,
        "minLength"@ != "maxLength"@,
        "pattern"@ != "length"@,
        "pattern"@ != "minLength"@,
        "pattern"@ != "maxLength"@,
        "enumeration"@ != "length"@,
        "enumeration"@ != "minLength"@,
        "enumeration"@ != "maxLength"@,
        "pattern"@ != "enumeration"@,
        "totalDigits"@ != "pattern"@,
        "totalDigits"@ != "enumeration"@,
        "totalDigits"@ != "length"@,
        "totalDigits"@ != "minLength"@,
        "totalDigits"@ != "maxLength"@,
        "fractionDigits"@ != "totalDigits"@,
        "fractionDigits"@ != "pattern"@,
        "fractionDigits"@ != "enumeration"@,
        "fractionDigits"@ != "length"@,
        "fractionDigits"@ != "minLength"@,
        "fractionDigits"@ != "maxLength"@,
{
    reveal_strlit("length");
    reveal_strlit("minLength");
    reveal_strlit("maxLength");
    reveal_strlit("pattern");
    reveal_strlit("enumeration");
    reveal_strlit("totalDigits");
    reveal_strlit("fractionDigits");
    assert("minLength"@[1] == 'i');
    assert("maxLength"@[1] == 'a');
    assert("enumeration"@[0] == 'e');
    assert("totalDigits"@[0] == 't');
    assert("length"@.len() == 6);
    assert("pattern"@.len() == 7);
    assert("minLength"@.len() == 9);
    assert("maxLength"@.len() == 9);
    assert("enumeration"@.len() == 11);
    assert("totalDigits"@.len() == 11);
    assert("fractionDigits"@.len() == 14);
}

/// The names of the facets that bound a value are distinct, and no other facets have them.
pub proof fn lemma_bounding_names()
    ensures
        forall|name: Text|
            name == "minInclusive"@ || name == "minExclusive"@ || name == "maxInclusive"@ || name
                == "maxExclusive"@ ==> name != "length"@ && name != "minLength"@ && name
                != "maxLength"@ && name != "totalDigits"@ && name != "fractionDigits"@ && name
                != "pattern"@ && #[trigger] name.len() != "enumeration"@.len(),
        "minInclusive"@ != "minExclusive"@,
        "minInclusive"@ != "maxInclusive"@,
        "minInclusive"@ != "maxExclusive"@,
        "minExclusive"@ != "maxInclusive"@,
        "minExclusive"@ != "maxExclusive"@,
        "maxInclusive"@ != "maxExclusive"@,
{
    reveal_strlit("length");
    reveal_strlit("minLength");
    reveal_strlit("maxLength");
    reveal_strlit("totalDigits");
    reveal_strlit("fractionDigits");
    reveal_strlit("pattern");
    reveal_strlit("enumeration");
    reveal_strlit("minInclusive");
    reveal_strlit("minExclusive");
    reveal_strlit("maxInclusive");
    reveal_strlit("maxExclusive");
    assert("minInclusive"@[1] == 'i');
    assert("maxInclusive"@[1] == 'a');
    assert("minExclusive"@[1] == 'i');
    assert("maxExclusive"@[1] == 'a');
    assert("minExclusive"@[3] == 'E');
    assert("minInclusive"@[3] == 'I');
    assert("maxExclusive"@[3] == 'E');
    assert("maxInclusive"@[3] == 'I');
}

/// The kinds of the texts.
proof fn lemma_text_kinds()
    ensures
        kind_of("string"@) == Some(TypeKind::StringLike(StringShape::Any)),
        kind_of("normalizedString"@) == Some(TypeKind::StringLike(StringShape::Normalized)),
        kind_of("token"@) == Some(TypeKind::StringLike(StringShape::Token)),
        kind_of("NMTOKENS"@) == Some(TypeKind::ListOf(StringShape::Nmtoken)),
{
    reveal_strlit("string");
    reveal_strlit("normalizedString");
    reveal_strlit("token");
    reveal_strlit("language");
    reveal_strlit("Name");
    reveal_strlit("NCName");
    reveal_strlit("ID");
    reveal_strlit("IDREF");
    reveal_strlit("ENTITY");
    reveal_strlit("NMTOKEN");
    reveal_strlit("anyURI");
    reveal_strlit("NMTOKENS");
    assert("normalizedString"@.len() == 16);
    assert("token"@.len() == 5);
    assert("IDREF"@[0] == 'I');
    assert("token"@[0] == 't');
    assert("NMTOKENS"@.len() == 8);
    assert("language"@[0] == 'l');
    assert("NMTOKENS"@[0] == 'N');
}

// ---------------------------------------------------------------------
// One facet, and several
// ---------------------------------------------------------------------

/// What one facet comes to, where it is neither a pattern nor an enumeration.
pub proof fn lemma_one(
    kind: TypeKind,
    datatype: Text,
    name: Text,
    param: Text,
    t: Text,
    bindings: Bindings,
)
    requires
        kind_of(datatype) == Some(kind),
        name != "pattern"@,
        name != "enumeration"@,
    ensures
        xsd_accepts(datatype, seq![(name, param)], t, bindings) == match denoted(
            kind,
            t,
            bindings,
        ) {
            Some(v) => facet_holds(kind, name, param, v, bindings),
            None => false,
        },
        xsd_accepts(datatype, Seq::empty(), t, bindings) == (denoted(kind, t, bindings) is Some),
{
    let one = seq![(name, param)];
    assert(one[0] == (name, param));
    match denoted(kind, t, bindings) {
        Some(v) => {
            assert(some_pattern(one, matched_patterns(one, t)));
            assert(some_enumerated(kind, one, v, bindings));
            assert(all_facets(kind, one, v, bindings) == facet_holds(
                kind,
                name,
                param,
                v,
                bindings,
            ));
        },
        None => {},
    }
}

/// A datatype with facets accepts a text just where it accepts it without any, with each
/// facet alone that is neither a pattern nor an enumeration, with some pattern alone, where
/// there are patterns, and with some enumerated value alone, where there are such.
pub proof fn law_facets_go_together(
    datatype: Text,
    params: Seq<(Text, Text)>,
    t: Text,
    bindings: Bindings,
)
    ensures
        xsd_accepts(datatype, params, t, bindings) <==> {
            &&& xsd_accepts(datatype, Seq::empty(), t, bindings)
            &&& forall|i: int|
                0 <= i < params.len() && params[i].0 != "pattern"@ && params[i].0
                    != "enumeration"@ ==> xsd_accepts(
                    datatype,
                    seq![#[trigger] params[i]],
                    t,
                    bindings,
                )
            &&& (exists|i: int| 0 <= i < params.len() && (#[trigger] params[i]).0 == "pattern"@)
                ==> exists|i: int|
                0 <= i < params.len() && (#[trigger] params[i]).0 == "pattern"@ && xsd_accepts(
                    datatype,
                    seq![params[i]],
                    t,
                    bindings,
                )
            &&& (exists|i: int|
                0 <= i < params.len() && (#[trigger] params[i]).0 == "enumeration"@) ==> exists|
                i: int,
            |
                0 <= i < params.len() && (#[trigger] params[i]).0 == "enumeration"@ && xsd_accepts(
                    datatype,
                    seq![params[i]],
                    t,
                    bindings,
                )
        },
{
    lemma_facet_names();
    match kind_of(datatype) {
        None => {},
        Some(kind) => {
            lemma_one(kind, datatype, "length"@, Seq::empty(), t, bindings);
            match denoted(kind, t, bindings) {
                None => {},
                Some(v) => {
                    assert forall|i: int| 0 <= i < params.len() implies xsd_accepts(
                        datatype,
                        seq![#[trigger] params[i]],
                        t,
                        bindings,
                    ) == (if params[i].0 == "pattern"@ {
                        matched_patterns(params, t)[i]
                    } else if params[i].0 == "enumeration"@ {
                        denotes(kind, params[i].1, v, bindings)
                    } else {
                        facet_holds(kind, params[i].0, params[i].1, v, bindings)
                    }) by {
                        let one = seq![params[i]];
                        assert(one[0] == params[i]);
                        assert(matched_patterns(one, t)[0] == matched_patterns(params, t)[i]);
                        assert(some_pattern(one, matched_patterns(one, t)) == (params[i].0
                            == "pattern"@ ==> matched_patterns(params, t)[i])) by {
                            if params[i].0 == "pattern"@ && matched_patterns(params, t)[i] {
                                assert(one[0].0 == "pattern"@ && matched_patterns(one, t)[0]);
                            }
                        }
                        assert(some_enumerated(kind, one, v, bindings) == (params[i].0
                            == "enumeration"@ ==> denotes(kind, params[i].1, v, bindings))) by {
                            if params[i].0 == "enumeration"@ && denotes(
                                kind,
                                params[i].1,
                                v,
                                bindings,
                            ) {
                                assert(one[0].0 == "enumeration"@ && denotes(
                                    kind,
                                    one[0].1,
                                    v,
                                    bindings,
                                ));
                            }
                        }
                        assert(all_facets(kind, one, v, bindings) == (params[i].0 != "pattern"@
                            && params[i].0 != "enumeration"@ ==> facet_holds(
                            kind,
                            params[i].0,
                            params[i].1,
                            v,
                            bindings,
                        )));
                    }
                },
            }
        },
    }
}

/// A datatype with one pattern accepts what it accepts without, where the pattern, taken from
/// the start to the end, matches it but for whitespace at its ends.
pub proof fn law_patterns_match_the_whole_text(
    datatype: Text,
    pattern: Text,
    t: Text,
    bindings: Bindings,
)
    ensures
        xsd_accepts(datatype, seq![("pattern"@, pattern)], t, bindings) <==> xsd_accepts(
            datatype,
            Seq::empty(),
            t,
            bindings,
        ) && regex_match("^(?:"@ + pattern + ")$"@, trim(t)) == Some(true),
{
    lemma_facet_names();
    let one = seq![("pattern"@, pattern)];
    assert(one[0] == ("pattern"@, pattern));
    match kind_of(datatype) {
        None => {},
        Some(kind) => {
            lemma_one(kind, datatype, "length"@, Seq::empty(), t, bindings);
            match denoted(kind, t, bindings) {
                None => {},
                Some(v) => {
                    assert(some_enumerated(kind, one, v, bindings));
                    assert(all_facets(kind, one, v, bindings));
                    let hits = matched_patterns(one, t);
                    assert(some_pattern(one, hits) == hits[0]);
                },
            }
        },
    }
}

/// A datatype with one enumerated value accepts just what denotes the same value.
pub proof fn law_enumeration_is_sameness(
    datatype: Text,
    literal: Text,
    t: Text,
    bindings: Bindings,
)
    ensures
        xsd_accepts(datatype, seq![("enumeration"@, literal)], t, bindings) <==> xsd_same(
            datatype,
            literal,
            bindings,
            t,
            bindings,
        ),
{
    lemma_facet_names();
    reveal(denotes);
    let one = seq![("enumeration"@, literal)];
    assert(one[0] == ("enumeration"@, literal));
    match kind_of(datatype) {
        None => {},
        Some(kind) => {
            match denoted(kind, t, bindings) {
                None => {},
                Some(v) => {
                    assert(some_pattern(one, matched_patterns(one, t)));
                    assert(all_facets(kind, one, v, bindings));
                    assert(some_enumerated(kind, one, v, bindings) == denotes(
                        kind,
                        one[0].1,
                        v,
                        bindings,
                    ));
                },
            }
        },
    }
}

// ---------------------------------------------------------------------
// Lengths
// ---------------------------------------------------------------------

/// The decimal digits of a number that fits denote it as a facet.
proof fn lemma_word(n: nat)
    requires
        n <= usize::MAX,
    ensures
        word(decimal(n)) == Some(n),
{
    law_decimal_denotes(n);
    assert(digit_of(decimal(n)[0]) < 10);
}

/// A value with a length has either at least a length, or at most one less: it satisfies
/// `minLength` of a number just where it does not satisfy `maxLength` of one less. It
/// satisfies `length` of a number just where it satisfies `minLength` and `maxLength` of it,
/// it satisfies `minLength` of nothing, and what satisfies `minLength` of a number satisfies
/// it of one less.
pub proof fn law_lengths_are_complementary(
    kind: TypeKind,
    n: nat,
    value: ValueModel,
    bindings: Bindings,
)
    requires
        length_of(value) is Some,
        0 < n <= usize::MAX,
    ensures
        facet_holds(kind, "minLength"@, decimal(n), value, bindings) <==> !facet_holds(
            kind,
            "maxLength"@,
            decimal((n - 1) as nat),
            value,
            bindings,
        ),
        facet_holds(kind, "length"@, decimal(n), value, bindings) <==> facet_holds(
            kind,
            "minLength"@,
            decimal(n),
            value,
            bindings,
        ) && facet_holds(kind, "maxLength"@, decimal(n), value, bindings),
        facet_holds(kind, "minLength"@, decimal(0), value, bindings),
        facet_holds(kind, "minLength"@, decimal(n), value, bindings) ==> facet_holds(
            kind,
            "minLength"@,
            decimal((n - 1) as nat),
            value,
            bindings,
        ),
{
    lemma_facet_names();
    lemma_word(n);
    lemma_word((n - 1) as nat);
    lemma_word(0);
}

/// A `string` has the length of its characters, a `normalizedString` the same, a `token` that
/// of what is left with its whitespace collapsed, and `NMTOKENS` that of their number. The
/// facets bound these lengths.
pub proof fn law_lengths_are_of_characters_or_items(t: Text, n: nat, bindings: Bindings)
    requires
        n <= usize::MAX,
    ensures
        xsd_accepts("string"@, seq![("minLength"@, decimal(n))], t, bindings) <==> t.len() >= n,
        xsd_accepts("string"@, seq![("maxLength"@, decimal(n))], t, bindings) <==> t.len() <= n,
        xsd_accepts("string"@, seq![("length"@, decimal(n))], t, bindings) <==> t.len() == n,
        xsd_accepts("normalizedString"@, seq![("minLength"@, decimal(n))], t, bindings)
            <==> t.len() >= n,
        xsd_accepts("normalizedString"@, seq![("maxLength"@, decimal(n))], t, bindings)
            <==> t.len() <= n,
        xsd_accepts("normalizedString"@, seq![("length"@, decimal(n))], t, bindings) <==> t.len()
            == n,
        xsd_accepts("token"@, seq![("minLength"@, decimal(n))], t, bindings) <==> collapse(t).len()
            >= n,
        xsd_accepts("token"@, seq![("maxLength"@, decimal(n))], t, bindings) <==> collapse(t).len()
            <= n,
        xsd_accepts("token"@, seq![("length"@, decimal(n))], t, bindings) <==> collapse(t).len()
            == n,
        xsd_accepts("NMTOKENS"@, Seq::empty(), t, bindings) ==> {
            &&& xsd_accepts("NMTOKENS"@, seq![("minLength"@, decimal(n))], t, bindings)
                <==> tokens(t).len() >= n
            &&& xsd_accepts("NMTOKENS"@, seq![("maxLength"@, decimal(n))], t, bindings)
                <==> tokens(t).len() <= n
            &&& xsd_accepts("NMTOKENS"@, seq![("length"@, decimal(n))], t, bindings)
                <==> tokens(t).len() == n
        },
{
    lemma_facet_names();
    lemma_text_kinds();
    lemma_word(n);
    let d = decimal(n);
    let any = TypeKind::StringLike(StringShape::Any);
    let spaced = TypeKind::StringLike(StringShape::Normalized);
    let token = TypeKind::StringLike(StringShape::Token);
    let names = TypeKind::ListOf(StringShape::Nmtoken);
    lemma_one(any, "string"@, "minLength"@, d, t, bindings);
    lemma_one(any, "string"@, "maxLength"@, d, t, bindings);
    lemma_one(any, "string"@, "length"@, d, t, bindings);
    lemma_one(spaced, "normalizedString"@, "minLength"@, d, t, bindings);
    lemma_one(spaced, "normalizedString"@, "maxLength"@, d, t, bindings);
    lemma_one(spaced, "normalizedString"@, "length"@, d, t, bindings);
    lemma_one(token, "token"@, "minLength"@, d, t, bindings);
    lemma_one(token, "token"@, "maxLength"@, d, t, bindings);
    lemma_one(token, "token"@, "length"@, d, t, bindings);
    lemma_one(names, "NMTOKENS"@, "minLength"@, d, t, bindings);
    lemma_one(names, "NMTOKENS"@, "maxLength"@, d, t, bindings);
    lemma_one(names, "NMTOKENS"@, "length"@, d, t, bindings);
    assert(with_spaces(t).len() == t.len());
}

// ---------------------------------------------------------------------
// Whole numbers
// ---------------------------------------------------------------------

/// The kinds of the numbers.
proof fn lemma_number_kinds()
    ensures
        kind_of("decimal"@) == Some(
            TypeKind::Decimal { integer_only: false, min: None, max: None },
        ),
        kind_of("integer"@) == Some(
            TypeKind::Decimal { integer_only: true, min: None, max: None },
        ),
        kind_of("nonPositiveInteger"@) == Some(
            TypeKind::Decimal { integer_only: true, min: None, max: Some(0) },
        ),
        kind_of("negativeInteger"@) == Some(
            TypeKind::Decimal { integer_only: true, min: None, max: Some(-1 as i128) },
        ),
        kind_of("nonNegativeInteger"@) == Some(
            TypeKind::Decimal { integer_only: true, min: Some(0), max: None },
        ),
        kind_of("positiveInteger"@) == Some(
            TypeKind::Decimal { integer_only: true, min: Some(1), max: None },
        ),
        kind_of("long"@) == Some(
            TypeKind::Decimal {
                integer_only: true,
                min: Some(-0x8000_0000_0000_0000 as i128),
                max: Some(0x7fff_ffff_ffff_ffff),
            },
        ),
        kind_of("int"@) == Some(
            TypeKind::Decimal {
                integer_only: true,
                min: Some(-0x8000_0000 as i128),
                max: Some(0x7fff_ffff),
            },
        ),
        kind_of("short"@) == Some(
            TypeKind::Decimal { integer_only: true, min: Some(-0x8000 as i128), max: Some(0x7fff) },
        ),
        kind_of("byte"@) == Some(
            TypeKind::Decimal { integer_only: true, min: Some(-0x80 as i128), max: Some(0x7f) },
        ),
        kind_of("unsignedLong"@) == Some(
            TypeKind::Decimal {
                integer_only: true,
                min: Some(0),
                max: Some(0xffff_ffff_ffff_ffff),
            },
        ),
        kind_of("unsignedInt"@) == Some(
            TypeKind::Decimal { integer_only: true, min: Some(0), max: Some(0xffff_ffff) },
        ),
        kind_of("unsignedShort"@) == Some(
            TypeKind::Decimal { integer_only: true, min: Some(0), max: Some(0xffff) },
        ),
        kind_of("unsignedByte"@) == Some(
            TypeKind::Decimal { integer_only: true, min: Some(0), max: Some(0xff) },
        ),
{
    reveal_strlit("string");
    reveal_strlit("normalizedString");
    reveal_strlit("token");
    reveal_strlit("language");
    reveal_strlit("Name");
    reveal_strlit("NCName");
    reveal_strlit("ID");
    reveal_strlit("IDREF");
    reveal_strlit("ENTITY");
    reveal_strlit("NMTOKEN");
    reveal_strlit("anyURI");
    reveal_strlit("NMTOKENS");
    reveal_strlit("IDREFS");
    reveal_strlit("ENTITIES");
    reveal_strlit("boolean");
    reveal_strlit("decimal");
    reveal_strlit("float");
    reveal_strlit("double");
    reveal_strlit("duration");
    reveal_strlit("dateTime");
    reveal_strlit("time");
    reveal_strlit("date");
    reveal_strlit("gYearMonth");
    reveal_strlit("gYear");
    reveal_strlit("gMonthDay");
    reveal_strlit("gDay");
    reveal_strlit("gMonth");
    reveal_strlit("hexBinary");
    reveal_strlit("base64Binary");
    reveal_strlit("QName");
    reveal_strlit("NOTATION");
    reveal_strlit("integer");
    reveal_strlit("nonPositiveInteger");
    reveal_strlit("negativeInteger");
    reveal_strlit("nonNegativeInteger");
    reveal_strlit("positiveInteger");
    reveal_strlit("long");
    reveal_strlit("int");
    reveal_strlit("short");
    reveal_strlit("byte");
    reveal_strlit("unsignedLong");
    reveal_strlit("unsignedInt");
    reveal_strlit("unsignedShort");
    reveal_strlit("unsignedByte");
    assert("string"@.len() == 6);
    assert("normalizedString"@.len() == 16);
    assert("token"@.len() == 5);
    assert("language"@.len() == 8);
    assert("Name"@.len() == 4);
    assert("NCName"@.len() == 6);
    assert("ID"@.len() == 2);
    assert("IDREF"@.len() == 5);
    assert("ENTITY"@.len() == 6);
    assert("NMTOKEN"@.len() == 7);
    assert("anyURI"@.len() == 6);
    assert("NMTOKENS"@.len() == 8);
    assert("IDREFS"@.len() == 6);
    assert("ENTITIES"@.len() == 8);
    assert("boolean"@.len() == 7);
    assert("decimal"@.len() == 7);
    assert("float"@.len() == 5);
    assert("double"@.len() == 6);
    assert("duration"@.len() == 8);
    assert("dateTime"@.len() == 8);
    assert("time"@.len() == 4);
    assert("date"@.len() == 4);
    assert("gYearMonth"@.len() == 10);
    assert("gYear"@.len() == 5);
    assert("gMonthDay"@.len() == 9);
    assert("gDay"@.len() == 4);
    assert("gMonth"@.len() == 6);
    assert("hexBinary"@.len() == 9);
    assert("base64Binary"@.len() == 12);
    assert("QName"@.len() == 5);
    assert("NOTATION"@.len() == 8);
    assert("integer"@.len() == 7);
    assert("nonPositiveInteger"@.len() == 18);
    assert("negativeInteger"@.len() == 15);
    assert("nonNegativeInteger"@.len() == 18);
    assert("positiveInteger"@.len() == 15);
    assert("long"@.len() == 4);
    assert("int"@.len() == 3);
    assert("short"@.len() == 5);
    assert("byte"@.len() == 4);
    assert("unsignedLong"@.len() == 12);
    assert("unsignedInt"@.len() == 11);
    assert("unsignedShort"@.len() == 13);
    assert("unsignedByte"@.len() == 12);
    assert("IDREF"@[0] == 'I');
    assert("NMTOKEN"@[0] == 'N');
    assert("Name"@[0] == 'N');
    assert("QName"@[0] == 'Q');
    assert("base64Binary"@[0] == 'b');
    assert("boolean"@[0] == 'b');
    assert("byte"@[0] == 'b');
    assert("date"@[0] == 'd');
    assert("decimal"@[0] == 'd');
    assert("float"@[0] == 'f');
    assert("gDay"@[0] == 'g');
    assert("gYear"@[0] == 'g');
    assert("integer"@[0] == 'i');
    assert("long"@[0] == 'l');
    assert("negativeInteger"@[0] == 'n');
    assert("nonNegativeInteger"@[3] == 'N');
    assert("nonPositiveInteger"@[3] == 'P');
    assert("positiveInteger"@[0] == 'p');
    assert("short"@[0] == 's');
    assert("time"@[0] == 't');
    assert("token"@[0] == 't');
    assert("unsignedByte"@[0] == 'u');
    assert("unsignedByte"@[8] == 'B');
    assert("unsignedLong"@[0] == 'u');
    assert("unsignedLong"@[8] == 'L');
}

/// A whole number as it is written: its digits, behind a minus where it is negative.
pub open spec fn written(n: int) -> Text {
    if n < 0 {
        seq!['-'] + decimal((-n) as nat)
    } else {
        decimal(n as nat)
    }
}

/// A text that neither starts nor ends with whitespace keeps its ends.
pub proof fn lemma_trim_kept(t: Text)
    requires
        t.len() > 0,
        !white_space(t[0]),
        !white_space(t.last()),
    ensures
        trim(t) == t,
{
}

/// The first digit of a number other than zero is none.
proof fn lemma_first_digit(n: nat)
    requires
        n > 0,
    ensures
        decimal(n)[0] != '0',
    decreases n,
{
    if n >= 10 {
        lemma_first_digit(n / 10);
        law_decimal_denotes(n / 10);
        assert(decimal(n)[0] == decimal(n / 10)[0]);
    }
}

/// What digits are.
pub proof fn lemma_digits(n: nat)
    ensures
        all_digits(decimal(n)),
        decimal(n).len() > 0,
        forall|i: int|
            0 <= i < decimal(n).len() ==> !white_space(#[trigger] decimal(n)[i]) && decimal(n)[i]
                != '.' && decimal(n)[i] != '-' && decimal(n)[i] != '+',
{
    law_decimal_denotes(n);
    assert forall|i: int| 0 <= i < decimal(n).len() implies !white_space(#[trigger] decimal(n)[i])
        && decimal(n)[i] != '.' && decimal(n)[i] != '-' && decimal(n)[i] != '+' && digit(
        decimal(n)[i],
    ) by {
        lemma_digit_at(n, i);
    }
}

/// Each digit is one.
pub proof fn lemma_digit_at(n: nat, i: int)
    requires
        0 <= i < decimal(n).len(),
    ensures
        '0' <= decimal(n)[i] <= '9',
    decreases n,
{
    if n >= 10 {
        if i < decimal(n / 10).len() {
            assert(decimal(n)[i] == decimal(n / 10)[i]);
            lemma_digit_at(n / 10, i);
        }
    }
}

/// The digits of a number, as a decimal number has them.
pub open spec fn significant(n: nat) -> Text {
    if n == 0 {
        Seq::empty()
    } else {
        decimal(n)
    }
}

/// The decimal number that a whole number is.
pub proof fn lemma_written(n: int)
    ensures
        ({
            let size = (if n < 0 {
                -n
            } else {
                n
            }) as nat;
            let d = DecimalModel {
                negative: n < 0,
                whole: significant(size),
                fraction: Seq::empty(),
            };
            &&& trim(written(n)) == written(n)
            &&& decimal_of(written(n)) == Some(d)
            &&& whole_value(d) == n
            &&& scaled_to(d, 0) == n
        }),
{
    let size = (if n < 0 {
        -n
    } else {
        n
    }) as nat;
    let digits = decimal(size);
    let t = written(n);
    lemma_digits(size);
    law_decimal_denotes(size);
    assert(!white_space('-'));
    assert(t.last() == digits.last());
    lemma_trim_kept(t);
    if n < 0 {
        assert(t.drop_first() =~= digits);
    }
    lemma_position(digits, '.', digits.len());
    let none = Seq::<char>::empty();
    assert(without_trailing_zeros(none) == none);
    if size == 0 {
        assert(digits =~= seq!['0']);
        assert(digits.drop_first() =~= none);
        assert(without_leading_zeros(none) == none);
        assert(without_leading_zeros(digits) == none);
        assert(value_of(none, 10) == 0);
    } else {
        lemma_first_digit(size);
    }
    let d = DecimalModel { negative: n < 0, whole: significant(size), fraction: none };
    assert(value_of(significant(size), 10) == size);
    assert(significant(size) + none =~= significant(size));
    assert(power(10, 0) == 1);
    let whole = value_of(d.whole + d.fraction, 10);
    let unit = power(10, (0 - d.fraction.len()) as nat);
    assert(whole * unit == size) by (nonlinear_arith)
        requires
            whole == size,
            unit == 1,
    ;
    assert(scaled_to(d, 0) == n);
    assert(split_once(digits, '.') is None);
    assert(unsigned_part(t) == (n < 0, digits)) by {
        if n >= 0 {
            assert(t[0] != '-' && t[0] != '+');
        }
    }
    assert(decimal_of(t)->0 =~= d);
}

/// A whole number of a datatype of whole numbers.
proof fn lemma_number(
    datatype: Text,
    min: Option<i128>,
    max: Option<i128>,
    n: int,
    bindings: Bindings,
)
    requires
        kind_of(datatype) == Some(TypeKind::Decimal { integer_only: true, min, max }),
    ensures
        xsd_accepts(datatype, Seq::empty(), written(n), bindings) <==> (min is Some ==> min->0
            <= n) && (max is Some ==> n <= max->0),
{
    lemma_facet_names();
    lemma_written(n);
    let kind = TypeKind::Decimal { integer_only: true, min, max };
    lemma_one(kind, datatype, "length"@, Seq::empty(), written(n), bindings);
}

/// Each datatype of whole numbers has just those within its range, as they are written.
pub proof fn law_whole_numbers_are_within_range(n: int, bindings: Bindings)
    ensures
        xsd_accepts("integer"@, Seq::empty(), written(n), bindings),
        xsd_accepts("nonPositiveInteger"@, Seq::empty(), written(n), bindings) <==> n <= 0,
        xsd_accepts("negativeInteger"@, Seq::empty(), written(n), bindings) <==> n <= -1,
        xsd_accepts("nonNegativeInteger"@, Seq::empty(), written(n), bindings) <==> 0 <= n,
        xsd_accepts("positiveInteger"@, Seq::empty(), written(n), bindings) <==> 1 <= n,
        xsd_accepts("long"@, Seq::empty(), written(n), bindings) <==> -0x8000_0000_0000_0000 <= n <= 0x7fff_ffff_ffff_ffff,
        xsd_accepts("int"@, Seq::empty(), written(n), bindings) <==> -0x8000_0000 <= n <= 0x7fff_ffff,
        xsd_accepts("short"@, Seq::empty(), written(n), bindings) <==> -0x8000 <= n <= 0x7fff,
        xsd_accepts("byte"@, Seq::empty(), written(n), bindings) <==> -0x80 <= n <= 0x7f,
        xsd_accepts("unsignedLong"@, Seq::empty(), written(n), bindings) <==> 0 <= n <= 0xffff_ffff_ffff_ffff,
        xsd_accepts("unsignedInt"@, Seq::empty(), written(n), bindings) <==> 0 <= n <= 0xffff_ffff,
        xsd_accepts("unsignedShort"@, Seq::empty(), written(n), bindings) <==> 0 <= n <= 0xffff,
        xsd_accepts("unsignedByte"@, Seq::empty(), written(n), bindings) <==> 0 <= n <= 0xff,
        xsd_accepts("decimal"@, Seq::empty(), written(n), bindings),
{
    lemma_number_kinds();
    lemma_number("integer"@, None, None, n, bindings);
    lemma_number("nonPositiveInteger"@, None, Some(0), n, bindings);
    lemma_number("negativeInteger"@, None, Some(-1 as i128), n, bindings);
    lemma_number("nonNegativeInteger"@, Some(0), None, n, bindings);
    lemma_number("positiveInteger"@, Some(1), None, n, bindings);
    lemma_number("long"@, Some(-0x8000_0000_0000_0000 as i128), Some(0x7fff_ffff_ffff_ffff), n, bindings);
    lemma_number("int"@, Some(-0x8000_0000 as i128), Some(0x7fff_ffff), n, bindings);
    lemma_number("short"@, Some(-0x8000 as i128), Some(0x7fff), n, bindings);
    lemma_number("byte"@, Some(-0x80 as i128), Some(0x7f), n, bindings);
    lemma_number("unsignedLong"@, Some(0), Some(0xffff_ffff_ffff_ffff), n, bindings);
    lemma_number("unsignedInt"@, Some(0), Some(0xffff_ffff), n, bindings);
    lemma_number("unsignedShort"@, Some(0), Some(0xffff), n, bindings);
    lemma_number("unsignedByte"@, Some(0), Some(0xff), n, bindings);
    lemma_facet_names();
    lemma_written(n);
    let kind = TypeKind::Decimal { integer_only: false, min: None, max: None };
    lemma_one(kind, "decimal"@, "length"@, Seq::empty(), written(n), bindings);
}

/// Whole numbers are bounded by the facets as numbers are, are the same where the numbers
/// are, and have as many digits.
pub proof fn law_whole_numbers_are_bounded(n: int, m: int, k: nat, bindings: Bindings)
    requires
        k <= usize::MAX,
    ensures
        xsd_accepts("integer"@, seq![("minInclusive"@, written(m))], written(n), bindings) <==> m
            <= n,
        xsd_accepts("integer"@, seq![("minExclusive"@, written(m))], written(n), bindings) <==> m
            < n,
        xsd_accepts("integer"@, seq![("maxInclusive"@, written(m))], written(n), bindings) <==> n
            <= m,
        xsd_accepts("integer"@, seq![("maxExclusive"@, written(m))], written(n), bindings) <==> n
            < m,
        xsd_same("integer"@, written(m), bindings, written(n), bindings) <==> m == n,
        n >= 0 ==> (xsd_accepts(
            "integer"@,
            seq![("totalDigits"@, decimal(k))],
            written(n),
            bindings,
        ) <==> n < power(10, k)),
        xsd_accepts("integer"@, seq![("fractionDigits"@, decimal(k))], written(n), bindings),
{
    lemma_facet_names();
    lemma_bounding_names();
    lemma_number_kinds();
    lemma_written(n);
    lemma_written(m);
    lemma_word(k);
    let kind = TypeKind::Decimal { integer_only: true, min: None, max: None };
    let t = written(n);
    let b = written(m);
    assert("minInclusive"@.len() != "enumeration"@.len());
    assert("minExclusive"@.len() != "enumeration"@.len());
    assert("maxInclusive"@.len() != "enumeration"@.len());
    assert("maxExclusive"@.len() != "enumeration"@.len());
    lemma_one(kind, "integer"@, "minInclusive"@, b, t, bindings);
    lemma_one(kind, "integer"@, "minExclusive"@, b, t, bindings);
    lemma_one(kind, "integer"@, "maxInclusive"@, b, t, bindings);
    lemma_one(kind, "integer"@, "maxExclusive"@, b, t, bindings);
    lemma_one(kind, "integer"@, "totalDigits"@, decimal(k), t, bindings);
    lemma_one(kind, "integer"@, "fractionDigits"@, decimal(k), t, bindings);
    if n >= 0 {
        lemma_digit_count(n as nat, k);
    }
}

/// A number has at most so many digits just where it is less than that power of ten.
proof fn lemma_digit_count(n: nat, k: nat)
    ensures
        significant(n).len() <= k <==> n < power(10, k),
    decreases n,
{
    if n == 0 {
        super::natural::lemma_power_positive(10, k);
    } else if n < 10 {
        assert(significant(n).len() == 1);
        if k > 0 {
            super::natural::lemma_power_positive(10, (k - 1) as nat);
            assert(power(10, k) == 10 * power(10, (k - 1) as nat));
        } else {
            assert(power(10, 0) == 1);
        }
    } else {
        assert(significant(n).len() == significant(n / 10).len() + 1);
        if k > 0 {
            lemma_digit_count(n / 10, (k - 1) as nat);
            assert(power(10, k) == 10 * power(10, (k - 1) as nat));
        } else {
            assert(power(10, 0) == 1);
        }
    }
}

} // verus!
