//! Schema texts, and the interface by which references to other schemas are resolved.
use vstd::prelude::*;

use crate::text::{IntoText, Text};

verus! {

/// Which of the two equivalent syntaxes a [`SchemaSource`]'s text is written in.
#[derive(Clone, Copy, Debug, PartialEq, Eq, Structural)]
pub enum SchemaSyntax {
    /// The compact (non-XML) syntax, conventionally using a `.rnc` file extension.
    Compact,
    /// The XML syntax, conventionally using a `.rng` file extension.
    Xml,
}

/// Schema text plus enough context (a base URI, and which syntax it is written in) to
/// parse it and to resolve what it refers to. Callers supply schema text directly, and a
/// [`SchemaResolver`] for anything that the schema refers to by `href`.
#[derive(Debug, PartialEq, Eq)]
pub struct SchemaSource {
    text: String,
    base_uri: String,
    syntax: SchemaSyntax,
}

/// The model of a [`SchemaSource`].
#[verifier::ext_equal]
pub struct SourceModel {
    pub text: Text,
    pub base_uri: Text,
    pub syntax: SchemaSyntax,
}

impl View for SchemaSource {
    type V = SourceModel;

    closed spec fn view(&self) -> SourceModel {
        SourceModel { text: self.text@, base_uri: self.base_uri@, syntax: self.syntax }
    }
}

impl Clone for SchemaSource {
    fn clone(&self) -> (r: Self)
        ensures
            r@ == self@,
    {
        SchemaSource {
            text: self.text.clone(),
            base_uri: self.base_uri.clone(),
            syntax: self.syntax,
        }
    }
}

impl SchemaSource {
    /// Builds a source from its text, base URI (used to resolve any relative `href`s that
    /// the schema refers to), and syntax.
    pub fn new<T: IntoText, B: IntoText>(text: T, base_uri: B, syntax: SchemaSyntax) -> (r: Self)
        ensures
            r@ == (SourceModel { text: text.chars_of(), base_uri: base_uri.chars_of(), syntax }),
    {
        SchemaSource { text: text.into_text(), base_uri: base_uri.into_text(), syntax }
    }

    /// The schema's raw text.
    pub fn text(&self) -> (r: &str)
        ensures
            r@ == self@.text,
    {
        self.text.as_str()
    }

    /// The base URI that relative `href`s in this schema resolve against.
    pub fn base_uri(&self) -> (r: &str)
        ensures
            r@ == self@.base_uri,
    {
        self.base_uri.as_str()
    }

    /// Which syntax [`Self::text`] is written in.
    pub fn syntax(&self) -> (r: SchemaSyntax)
        ensures
            r == self@.syntax,
    {
        self.syntax
    }
}

/// What a resolver answers: a source, or why there is none.
pub type Answer = Result<SourceModel, Text>;

/// The model of a resolver's answer.
pub open spec fn answer_of(r: Result<SchemaSource, ResolveError>) -> Answer {
    match r {
        Ok(source) => Ok(source@),
        Err(error) => Err(error@),
    }
}

/// Resolves an `href` (relative to a base URI) to the [`SchemaSource`] that it names.
/// Implement this over whatever loading mechanism (files, an in-memory map, HTTP, ...)
/// fits the caller, with whatever security boundary (allowed schemes, path restrictions)
/// is appropriate there. Two calls on one input may be answered differently.
pub trait SchemaResolver {
    /// The answers that the resolver may give to a request.
    open spec fn may_answer(&self, href: Text, base_uri: Text, answer: Answer) -> bool {
        true
    }

    /// Resolves `href` (as it literally appears in the schema) relative to `base_uri`, or
    /// fails with a [`ResolveError`] if it cannot be found, read, or is disallowed.
    fn resolve(&self, href: &str, base_uri: &str) -> (r: Result<SchemaSource, ResolveError>)
        ensures
            self.may_answer(href@, base_uri@, answer_of(r)),
    ;
}

/// A [`SchemaResolver`] failed to resolve an `href`.
#[derive(Clone, Debug, PartialEq, Eq)]
pub struct ResolveError {
    message: String,
}

impl View for ResolveError {
    type V = Text;

    closed spec fn view(&self) -> Text {
        self.message@
    }
}

impl ResolveError {
    /// Builds a `ResolveError` with the given message.
    pub fn new<T: IntoText>(message: T) -> (r: Self)
        ensures
            r@ == message.chars_of(),
    {
        ResolveError { message: message.into_text() }
    }

    /// The error's message.
    pub fn to_string(&self) -> (r: String)
        ensures
            r@ == self@,
    {
        self.message.clone()
    }
}

} // verus!
