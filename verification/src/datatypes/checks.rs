//! What is accepted as a datatype with its facets, which libraries there are, and what the
//! built-in one does.
use vstd::prelude::*;

use super::builtin::builtin_model;
use super::facets::{lemma_bounding_names, lemma_digits, lemma_facet_names};
use super::lexical::{bare, lemma_bare};
use super::registry::{standard_libraries, Bindings};
use super::xsd::{
    anchored, facet_problem, facets_problem, kind_of, regex_error, word, xsd_accepts, xsd_model,
    xsd_problem, TypeKind,
};
use crate::compact_writing::{lemma_occurs, lemma_split};
use crate::numbers::{decimal, digit_of, law_decimal_denotes};
use crate::string_map::{lemma_inserted_lookup, lookup};
use crate::syntax::{datatype_library_uri, uri_rest_from, uri_scheme};
use crate::text::{digit, law_collapse_is_idempotent, tokens, Text};

verus! {

/// A datatype with facets is accepted exactly where it exists and is accepted with each of them
/// alone.
pub proof fn law_facets_are_accepted_one_by_one(datatype: Text, params: Seq<(Text, Text)>)
    ensures
        xsd_problem(datatype, params) is None <==> xsd_problem(datatype, bare()) is None && (
        forall|i: int|
            0 <= i < params.len() ==> xsd_problem(datatype, seq![#[trigger] params[i]]) is None),
        xsd_problem(datatype, bare()) is None <==> kind_of(datatype) is Some,
{
    if kind_of(datatype) is Some {
        let kind = kind_of(datatype)->0;
        lemma_each_facet(kind, params, params.len());
        assert forall|i: int| 0 <= i < params.len() implies (xsd_problem(
            datatype,
            seq![#[trigger] params[i]],
        ) is None <==> facet_problem(
            kind,
            params[i].0,
            params[i].1,
            regex_error(anchored(params[i].1)),
        ) is None) by {
            lemma_single(kind, params[i]);
        }
    }
}

/// One facet alone.
proof fn lemma_single(kind: TypeKind, param: (Text, Text))
    ensures
        facets_problem(kind, seq![param], 1) == facet_problem(
            kind,
            param.0,
            param.1,
            regex_error(anchored(param.1)),
        ),
{
    let params = seq![param];
    assert(params.len() == 1 && params[0] == param);
    assert(facets_problem(kind, params, 0) is None);
}

/// The first facets are accepted where each is.
proof fn lemma_each_facet(kind: TypeKind, params: Seq<(Text, Text)>, n: nat)
    requires
        n <= params.len(),
    ensures
        facets_problem(kind, params, n) is None <==> (forall|i: int|
            0 <= i < n ==> facet_problem(
                kind,
                (#[trigger] params[i]).0,
                params[i].1,
                regex_error(anchored(params[i].1)),
            ) is None),
    decreases n,
{
    if n > 0 {
        lemma_each_facet(kind, params, (n - 1) as nat);
    }
}

/// Whether a kind of datatype has texts or lists of them.
pub open spec fn of_texts(kind: TypeKind) -> bool {
    match kind {
        TypeKind::StringLike(_) => true,
        TypeKind::ListOf(_) => true,
        _ => false,
    }
}

/// Whether a kind of datatype has values in an order.
pub open spec fn in_order(kind: TypeKind) -> bool {
    match kind {
        TypeKind::Decimal { integer_only, min, max } => true,
        TypeKind::Float => true,
        TypeKind::Double => true,
        TypeKind::Duration => true,
        TypeKind::Temporal(_) => true,
        _ => false,
    }
}

/// Which facets a datatype takes: any enumerated value, a pattern that can be compiled, bounds
/// of the length where it has texts or lists, of the digits where it has decimal numbers, the
/// total of them positive, and of the value where its values are in order, if the bound is such
/// a value; and no other.
pub proof fn law_facets_apply_to_their_datatypes(
    datatype: Text,
    kind: TypeKind,
    name: Text,
    value: Text,
    n: nat,
)
    requires
        kind_of(datatype) == Some(kind),
        n <= usize::MAX,
    ensures
        xsd_problem(datatype, seq![("enumeration"@, value)]) is None,
        xsd_problem(datatype, seq![("pattern"@, value)]) is None <==> regex_error(
            "^(?:"@ + value + ")$"@,
        ) is None,
        name == "length"@ || name == "minLength"@ || name == "maxLength"@ ==> (xsd_problem(
            datatype,
            seq![(name, decimal(n))],
        ) is None <==> of_texts(kind)),
        xsd_problem(datatype, seq![("totalDigits"@, decimal(n))]) is None <==> kind is Decimal && n
            > 0,
        xsd_problem(datatype, seq![("fractionDigits"@, decimal(n))]) is None <==> kind is Decimal,
        name == "minInclusive"@ || name == "minExclusive"@ || name == "maxInclusive"@ || name
            == "maxExclusive"@ ==> (xsd_problem(datatype, seq![(name, value)]) is None
            <==> in_order(kind) && xsd_accepts(datatype, bare(), value, Seq::empty())),
        name != "length"@ && name != "minLength"@ && name != "maxLength"@ && name
            != "minInclusive"@ && name != "minExclusive"@ && name != "maxInclusive"@ && name
            != "maxExclusive"@ && name != "totalDigits"@ && name != "fractionDigits"@ && name
            != "pattern"@ && name != "enumeration"@ && name != "whiteSpace"@ ==> xsd_problem(
            datatype,
            seq![(name, value)],
        ) is Some,
{
    lemma_facet_names();
    lemma_bounding_names();
    reveal_strlit("whiteSpace");
    reveal_strlit("pattern");
    reveal_strlit("enumeration");
    reveal_strlit("length");
    reveal_strlit("minLength");
    reveal_strlit("maxLength");
    reveal_strlit("totalDigits");
    reveal_strlit("fractionDigits");
    reveal_strlit("minInclusive");
    reveal_strlit("minExclusive");
    reveal_strlit("maxInclusive");
    reveal_strlit("maxExclusive");
    assert("whiteSpace"@.len() == 10);
    assert("pattern"@.len() == 7);
    assert("enumeration"@.len() == 11 && "enumeration"@[0] == 'e');
    assert("length"@.len() == 6);
    assert("minLength"@.len() == 9 && "minLength"@[1] == 'i');
    assert("maxLength"@.len() == 9 && "maxLength"@[1] == 'a');
    assert("totalDigits"@.len() == 11 && "totalDigits"@[0] == 't');
    assert("fractionDigits"@.len() == 14);
    assert("minInclusive"@.len() == 12);
    assert("minExclusive"@.len() == 12);
    assert("maxInclusive"@.len() == 12);
    assert("maxExclusive"@.len() == 12);
    lemma_single(kind, ("enumeration"@, value));
    lemma_single(kind, ("pattern"@, value));
    lemma_single(kind, (name, decimal(n)));
    lemma_single(kind, ("totalDigits"@, decimal(n)));
    lemma_single(kind, ("fractionDigits"@, decimal(n)));
    lemma_single(kind, (name, value));
    lemma_bare(datatype, value, Seq::empty());
    lemma_count(n);
}

/// A number that fits a machine word is one as it is written.
proof fn lemma_count(n: nat)
    requires
        n <= usize::MAX,
    ensures
        word(decimal(n)) == Some(n),
{
    lemma_digits(n);
    law_decimal_denotes(n);
    let t = decimal(n);
    assert forall|i: int| 0 <= i < t.len() implies digit_of(#[trigger] t[i]) < 10 by {
        assert(digit(t[i]));
    }
    assert(t[0] != '+');
}

/// The built-in library has `string` and `token`, without parameters. Each takes every text; two
/// are the same `string` where they are equal, and the same `token` where their words are.
pub proof fn law_builtin_datatypes(
    datatype: Text,
    params: Seq<(Text, Text)>,
    a: Text,
    b: Text,
    bindings: Bindings,
    other: Bindings,
)
    ensures
        ({
            let library = builtin_model();
            &&& (library.problem)(datatype, params) is None <==> (datatype == "string"@ || datatype
                == "token"@) && params.len() == 0
            &&& (library.accepts)(datatype, params, a, bindings) <==> datatype == "string"@
                || datatype == "token"@
            &&& (library.same)("string"@, a, bindings, b, other) <==> a == b
            &&& (library.same)("token"@, a, bindings, b, other) <==> tokens(a) == tokens(b)
        }),
{
    reveal_strlit("string");
    reveal_strlit("token");
    assert("string"@.len() == 6);
    assert("token"@.len() == 5);
    law_collapse_is_idempotent(a);
    law_collapse_is_idempotent(b);
}

/// Two libraries are there from the start: the built-in one, which the empty name stands for,
/// and that of XML Schema.
pub proof fn law_standard_libraries(uri: Text)
    ensures
        lookup(standard_libraries(), Seq::empty()) == Some(builtin_model()),
        lookup(standard_libraries(), "http://www.w3.org/2001/XMLSchema-datatypes"@) == Some(
            xsd_model(),
        ),
        uri.len() > 0 && uri != "http://www.w3.org/2001/XMLSchema-datatypes"@ ==> lookup(
            standard_libraries(),
            uri,
        ) is None,
{
    let none = Seq::<char>::empty();
    let name = "http://www.w3.org/2001/XMLSchema-datatypes"@;
    let first = seq![(none, builtin_model())];
    reveal_strlit("http://www.w3.org/2001/XMLSchema-datatypes");
    assert(name.len() > 0);
    assert(first[0].0 == none && first[0].1 == builtin_model());
    assert(first.drop_first().len() == 0);
    assert(lookup(first.drop_first(), uri) is None);
    assert(lookup(first, none) == Some(builtin_model()));
    assert(uri.len() > 0 ==> lookup(first, uri) is None);
    lemma_inserted_lookup(first, name, xsd_model(), none);
    lemma_inserted_lookup(first, name, xsd_model(), uri);
}

/// A name of a datatype library is empty, or a scheme and a colon before a part that is not
/// empty, holds no number sign, and is of characters and escapes of URIs.
pub proof fn law_library_names(scheme: Text, rest: Text)
    requires
        !scheme.contains(':'),
    ensures
        datatype_library_uri(Seq::empty()),
        scheme.len() > 0 ==> !datatype_library_uri(scheme),
        datatype_library_uri(scheme + seq![':'] + rest) <==> uri_scheme(scheme) && rest.len() > 0
            && !rest.contains('#') && uri_rest_from(rest, 0),
{
    lemma_split(scheme, rest);
    lemma_occurs(scheme, ':');
    lemma_occurs(rest, '#');
}

} // verus!
