//! What the two syntaxes of schemas have in common: errors, contexts, names and URIs.
use vstd::prelude::*;
use vstd::slice::slice_subrange;

use crate::compact::{compact_schema, parse_compact};
use crate::grammar::{Context, ContextModel, RootModel, SchemaDocument};
use crate::resolver::{SchemaSource, SchemaSyntax, SourceModel};
use crate::string_map::{lookup, StringMap};
use crate::text::{
    ascii_alphanumeric, ascii_letter, concat4, copy_chars, find, from_chars, hex_digit,
    is_ascii_alphanumeric, is_ascii_letter, is_hex_digit, occurs, opt_text, push_all,
    split_at_first, split_once, to_chars, Text,
};
use crate::xml_syntax::{parse_xml, parsed, xml_schema, Parsed};

verus! {

/// A schema's text is not well-formed in its declared syntax: malformed tokens or XML, an
/// unknown element or attribute, or a structural violation.
#[derive(Clone, Debug, PartialEq, Eq)]
pub struct ParseError {
    message: String,
}

impl View for ParseError {
    type V = Text;

    closed spec fn view(&self) -> Text {
        self.message@
    }
}

impl ParseError {
    /// The error with the given message.
    pub fn new(message: &str) -> (r: Self)
        ensures
            r@ == message@,
    {
        ParseError { message: message.to_owned() }
    }

    /// The error with the given message.
    pub fn from_string(message: String) -> (r: Self)
        ensures
            r@ == message@,
    {
        ParseError { message }
    }

    /// The error's message.
    pub fn to_string(&self) -> (r: String)
        ensures
            r@ == self@,
    {
        self.message.clone()
    }
}

/// What the text of a schema says, given the namespace that it inherits from where it is
/// referred to, as a fallback for content that sets none.
pub open spec fn schema_of(source: SourceModel, inherited: Option<Text>) -> Parsed<RootModel> {
    match source.syntax {
        SchemaSyntax::Xml => xml_schema(source.text, source.base_uri, inherited),
        SchemaSyntax::Compact => compact_schema(source.text, source.base_uri, inherited),
    }
}

/// Parses `source`'s text, in its declared syntax, into a [`SchemaDocument`]. This step
/// alone does not resolve references to other schemas or check most restrictions; pass the
/// result to [`crate::simplify`] for that.
pub fn parse(source: &SchemaSource) -> (r: Result<SchemaDocument, ParseError>)
    ensures
        parsed(r) == schema_of(source@, None),
{
    parse_with_inherited_ns(source, None)
}

/// Like [`parse`], for a schema that another one refers to: the namespace in force where
/// it is referred to is a fallback for content that sets none, as if the reference were
/// replaced by what it refers to.
pub fn parse_with_inherited_ns(source: &SchemaSource, inherited_ns: Option<String>) -> (r: Result<
    SchemaDocument,
    ParseError,
>)
    ensures
        parsed(r) == schema_of(source@, opt_text(inherited_ns)),
{
    match source.syntax() {
        SchemaSyntax::Xml => parse_xml(source, inherited_ns),
        SchemaSyntax::Compact => parse_compact(source, inherited_ns),
    }
}

/// The context that a schema starts from.
pub open spec fn starting_context(
    base_uri: Text,
    datatype_library: Option<Text>,
    ns: Option<Text>,
) -> ContextModel {
    ContextModel {
        base_uri,
        namespaces: Seq::empty(),
        default_namespace: None,
        datatype_library,
        ns,
    }
}

/// The bare context that a schema starts from, before any declaration narrows it further.
pub fn initial_context(
    source: &SchemaSource,
    datatype_library: Option<String>,
    ns: Option<String>,
) -> (r: Context)
    ensures
        r@ == starting_context(source@.base_uri, opt_text(datatype_library), opt_text(ns)),
{
    Context {
        base_uri: source.base_uri().to_owned(),
        namespaces: StringMap::new(),
        default_namespace: None,
        datatype_library,
        ns,
    }
}

/// The namespace of a prefix, or the complaint about it.
pub open spec fn namespace_of(
    namespaces: Seq<(Text, Text)>,
    prefix: Text,
    complaint: Text,
) -> Result<Text, Text> {
    match lookup(namespaces, prefix) {
        Some(uri) => Ok(uri),
        None => Err(complaint + " `"@ + prefix + "`"@),
    }
}

/// Looks `prefix` up in `namespaces`, or fails with `error_prefix` followed by the prefix
/// itself.
pub fn resolve_namespace(
    namespaces: &StringMap<String>,
    prefix: &str,
    error_prefix: &str,
) -> (r: Result<String, ParseError>)
    ensures
        match r {
            Ok(uri) => namespace_of(namespaces@, prefix@, error_prefix@) == Ok::<Text, Text>(uri@),
            Err(error) => namespace_of(namespaces@, prefix@, error_prefix@) == Err::<Text, Text>(
                error@,
            ),
        },
{
    match namespaces.get(prefix) {
        Some(uri) => Ok(uri.clone()),
        None => Err(ParseError::from_string(concat4(error_prefix, " `", prefix, "`"))),
    }
}

// ---------------------------------------------------------------------
// Names
// ---------------------------------------------------------------------

/// Whether a character has the Unicode property `XID_Start`.
pub uninterp spec fn xid_start(c: char) -> bool;

/// Whether a character has the Unicode property `XID_Continue`.
pub uninterp spec fn xid_continue(c: char) -> bool;

/// `unicode_ident::is_xid_start` tells whether a character has the Unicode property
/// `XID_Start`, by tables; which characters those are is left to the name [`xid_start`].
pub assume_specification[ unicode_ident::is_xid_start ](ch: char) -> (r: bool)
    ensures
        r == xid_start(ch),
;

/// `unicode_ident::is_xid_continue` tells whether a character has the Unicode property
/// `XID_Continue`, by tables; which characters those are is left to the name
/// [`xid_continue`].
pub assume_specification[ unicode_ident::is_xid_continue ](ch: char) -> (r: bool)
    ensures
        r == xid_continue(ch),
;

/// Whether a text is a name without a colon: it starts with `XID_Start` or an underscore,
/// and goes on with `XID_Continue`, hyphens and full stops.
pub open spec fn ncname(t: Text) -> bool {
    ncname_given(t, t.len() > 0 && xid_start(t[0]), Seq::new(t.len(), |i: int| xid_continue(t[i])))
}

/// Whether a text is a name without a colon, given whether its first character is
/// `XID_Start`, and of each character whether it is `XID_Continue`.
pub open spec fn ncname_given(t: Text, starts: bool, continues: Seq<bool>) -> bool {
    &&& t.len() > 0
    &&& starts || t[0] == '_'
    &&& forall|i: int| 1 <= i < t.len() ==> continues[i] || #[trigger] t[i] == '-' || t[i] == '.'
}

/// Whether a text is a name without a colon, given whether its first character is
/// `XID_Start`, and of each character whether it is `XID_Continue`.
pub fn is_ncname_given(chars: &[char], starts: bool, continues: &[bool]) -> (r: bool)
    requires
        continues@.len() == chars@.len(),
    ensures
        r == ncname_given(chars@, starts, continues@),
{
    if chars.len() == 0 {
        return false;
    }
    if !(starts || chars[0] == '_') {
        return false;
    }
    let mut i: usize = 1;
    while i < chars.len()
        invariant
            1 <= i <= chars.len(),
            continues@.len() == chars@.len(),
            forall|j: int|
                1 <= j < i ==> continues@[j] || #[trigger] chars@[j] == '-' || chars@[j] == '.',
        decreases chars.len() - i,
    {
        let c = chars[i];
        if !(continues[i] || c == '-' || c == '.') {
            assert(!(continues@[i as int] || chars@[i as int] == '-' || chars@[i as int] == '.'));
            return false;
        }
        i += 1;
    }
    true
}

/// Of each character, whether it is `XID_Continue`.
pub fn continue_flags(chars: &[char]) -> (r: Vec<bool>)
    ensures
        r@ == Seq::new(chars@.len(), |i: int| xid_continue(chars@[i])),
{
    let mut continues: Vec<bool> = Vec::new();
    let mut i: usize = 0;
    while i < chars.len()
        invariant
            i <= chars.len(),
            continues.len() == i,
            forall|j: int| 0 <= j < i ==> #[trigger] continues@[j] == xid_continue(chars@[j]),
        decreases chars.len() - i,
    {
        continues.push(unicode_ident::is_xid_continue(chars[i]));
        i += 1;
    }
    assert(continues@ =~= Seq::new(chars@.len(), |i: int| xid_continue(chars@[i])));
    continues
}

/// Whether a text is a name without a colon. It approximates the XML `NCName` production
/// with Unicode's `XID_Start` and `XID_Continue`, by which combining marks cannot start a
/// name.
pub fn is_ncname(chars: &[char]) -> (r: bool)
    ensures
        r == ncname(chars@),
{
    let starts = chars.len() > 0 && unicode_ident::is_xid_start(chars[0]);
    let continues = continue_flags(chars);
    is_ncname_given(chars, starts, continues.as_slice())
}

/// Whether a text is a name without a colon.
pub fn is_valid_ncname(value: &str) -> (r: bool)
    ensures
        r == ncname(value@),
{
    let chars = to_chars(value);
    is_ncname(chars.as_slice())
}

// ---------------------------------------------------------------------
// URIs
// ---------------------------------------------------------------------

/// Whether a text is a URI scheme.
pub open spec fn uri_scheme(t: Text) -> bool {
    &&& t.len() > 0
    &&& ascii_letter(t[0])
    &&& forall|i: int|
        1 <= i < t.len() ==> ascii_alphanumeric(#[trigger] t[i]) || t[i] == '+' || t[i] == '-'
            || t[i] == '.'
}

/// The characters that may stand in a URI as they are.
pub open spec fn uri_char(c: char) -> bool {
    ascii_alphanumeric(c) || c == '-' || c == '_' || c == '.' || c == '!' || c == '~' || c == '*'
        || c == '\'' || c == '(' || c == ')' || c == ';' || c == '/' || c == '?' || c == ':' || c
        == '@' || c == '&' || c == '=' || c == '+' || c == '$' || c == ','
}

/// Whether what follows from `i` on holds only characters of URIs, and escapes of exactly
/// two hexadecimal digits.
pub open spec fn uri_rest_from(t: Text, i: int) -> bool
    decreases t.len() - i,
{
    if i < 0 || i >= t.len() {
        true
    } else if t[i] == '%' {
        i + 2 < t.len() && hex_digit(t[i + 1]) && hex_digit(t[i + 2]) && uri_rest_from(t, i + 3)
    } else {
        uri_char(t[i]) && uri_rest_from(t, i + 1)
    }
}

/// Whether a text identifies a datatype library: it is empty, or an absolute URI without a
/// fragment identifier.
pub open spec fn datatype_library_uri(t: Text) -> bool {
    t.len() == 0 || (match split_once(t, ':') {
        None => false,
        Some((scheme, rest)) => uri_scheme(scheme) && rest.len() > 0 && !occurs(rest, '#')
            && uri_rest_from(rest, 0),
    })
}

/// Whether a text is a URI scheme.
pub fn is_valid_uri_scheme(scheme: &[char]) -> (r: bool)
    ensures
        r == uri_scheme(scheme@),
{
    if scheme.len() == 0 || !is_ascii_letter(scheme[0]) {
        return false;
    }
    let mut i: usize = 1;
    while i < scheme.len()
        invariant
            1 <= i <= scheme.len(),
            forall|j: int|
                1 <= j < i ==> ascii_alphanumeric(#[trigger] scheme@[j]) || scheme@[j] == '+'
                    || scheme@[j] == '-' || scheme@[j] == '.',
        decreases scheme.len() - i,
    {
        let c = scheme[i];
        if !(is_ascii_alphanumeric(c) || c == '+' || c == '-' || c == '.') {
            assert(!(ascii_alphanumeric(scheme@[i as int]) || scheme@[i as int] == '+'
                || scheme@[i as int] == '-' || scheme@[i as int] == '.'));
            return false;
        }
        i += 1;
    }
    true
}

/// Whether a character may stand in a URI as it is.
fn is_uric_char(c: char) -> (r: bool)
    ensures
        r == uri_char(c),
{
    is_ascii_alphanumeric(c) || c == '-' || c == '_' || c == '.' || c == '!' || c == '~' || c
        == '*' || c == '\'' || c == '(' || c == ')' || c == ';' || c == '/' || c == '?' || c == ':'
        || c == '@' || c == '&' || c == '=' || c == '+' || c == '$' || c == ','
}

/// Whether the part of a URI after its scheme holds only characters of URIs, and escapes of
/// exactly two hexadecimal digits.
pub fn is_valid_uri_rest(rest: &[char]) -> (r: bool)
    ensures
        r == uri_rest_from(rest@, 0),
{
    let mut i: usize = 0;
    while i < rest.len()
        invariant
            i <= rest.len(),
            uri_rest_from(rest@, 0) == uri_rest_from(rest@, i as int),
        decreases rest.len() - i,
    {
        if rest[i] == '%' {
            if rest.len() - i <= 2 || !is_hex_digit(rest[i + 1]) || !is_hex_digit(rest[i + 2]) {
                return false;
            }
            i += 3;
        } else {
            if !is_uric_char(rest[i]) {
                return false;
            }
            i += 1;
        }
    }
    true
}

/// Whether a text identifies a datatype library; see [`datatype_library_uri`].
pub fn is_valid_datatype_library_uri(value: &str) -> (r: bool)
    ensures
        r == datatype_library_uri(value@),
{
    let chars = to_chars(value);
    if chars.len() == 0 {
        return true;
    }
    match split_at_first(chars.as_slice(), ':') {
        None => false,
        Some((scheme, rest)) => is_valid_uri_scheme(scheme) && rest.len() > 0 && find(rest, '#')
            == rest.len() && is_valid_uri_rest(rest),
    }
}

/// Everything up to and including the last slash.
pub open spec fn directory(t: Text) -> Text
    decreases t.len(),
{
    if t.len() == 0 || t.last() == '/' {
        t
    } else {
        directory(t.drop_last())
    }
}

/// A reference resolved against a base: an absolute one replaces the base, and another one
/// is appended to the base's directory.
pub open spec fn resolved_reference(base: Text, reference: Text) -> Text {
    let absolute = match split_once(reference, ':') {
        Some((scheme, rest)) => uri_scheme(scheme),
        None => false,
    };
    if absolute {
        reference
    } else {
        directory(base) + reference
    }
}

/// Resolves a reference against a base; see [`resolved_reference`].
pub fn resolve_relative_reference(base: &str, reference: &[char]) -> (r: String)
    ensures
        r@ == resolved_reference(base@, reference@),
{
    let absolute = match split_at_first(reference, ':') {
        Some((scheme, rest)) => is_valid_uri_scheme(scheme),
        None => false,
    };
    if absolute {
        return from_chars(reference);
    }
    let chars = to_chars(base);
    let mut n: usize = chars.len();
    assert(chars@.take(n as int) =~= chars@);
    while n > 0 && chars[n - 1] != '/'
        invariant
            n <= chars.len(),
            directory(chars@) == directory(chars@.take(n as int)),
        decreases n,
    {
        assert(chars@.take(n as int).drop_last() =~= chars@.take(n - 1));
        n -= 1;
    }
    let head = slice_subrange(chars.as_slice(), 0, n);
    assert(head@ =~= chars@.take(n as int));
    let mut out = copy_chars(head);
    push_all(&mut out, reference);
    from_chars(out.as_slice())
}

// ---------------------------------------------------------------------
// Laws
// ---------------------------------------------------------------------

/// An absolute reference does not depend on the base.
pub proof fn law_absolute_reference_replaces_base(base: Text, other: Text, reference: Text)
    requires
        split_once(reference, ':') matches Some((scheme, rest)) && uri_scheme(scheme),
    ensures
        resolved_reference(base, reference) == reference,
        resolved_reference(base, reference) == resolved_reference(other, reference),
{
}

/// A directory ends in a slash, or is empty.
proof fn lemma_directory(t: Text)
    ensures
        directory(t).len() == 0 || directory(t).last() == '/',
        directory(t).len() <= t.len(),
        directory(t) == t.take(directory(t).len() as int),
    decreases t.len(),
{
    if t.len() > 0 && t.last() != '/' {
        lemma_directory(t.drop_last());
        let d = directory(t.drop_last());
        assert(t.drop_last().take(d.len() as int) =~= t.take(d.len() as int));
    } else {
        assert(t.take(t.len() as int) =~= t);
    }
}

/// A relative reference is appended to a directory of the base: a part of it from the
/// beginning that is empty or ends in a slash.
pub proof fn law_relative_reference_extends_directory(base: Text, reference: Text)
    requires
        !(split_once(reference, ':') matches Some((scheme, rest)) && uri_scheme(scheme)),
    ensures
        resolved_reference(base, reference) == directory(base) + reference,
        directory(base).len() == 0 || directory(base).last() == '/',
        directory(base) == base.take(directory(base).len() as int),
{
    lemma_directory(base);
}

} // verus!
