//! Compile once, validate many documents: [`Schema`] ties together parsing, composition
//! and validation. The functions that it calls remain available for those who need what
//! they hand to one another.
use vstd::prelude::*;

use crate::compose::{compiled, simplify};
use crate::datatypes::registry::{DatatypeError, DatatypeRegistry};
use crate::derivative::MAX_DEPTH;
use crate::resolver::{SchemaResolver, SchemaSource};
use crate::simplify::{consistent, CompiledSchema, Feed, SchemaError, SchemaModel};
use crate::syntax::{parse, schema_of, ParseError};
use crate::text::Text;
use crate::validator::{
    document_errors, errors_of, schema_datatype_problem, validate, Element, ValidationError,
};

verus! {

/// A parsed and composed schema, ready to validate any number of documents against.
///
/// Compiling (parsing the text of the schema, and resolving and composing what it refers
/// to) is the relatively expensive step; [`Schema::compile`] does it once, and the
/// resulting `Schema` is then reused for every document validated against it.
#[derive(Debug)]
pub struct Schema {
    compiled: CompiledSchema,
}

impl View for Schema {
    type V = SchemaModel;

    closed spec fn view(&self) -> SchemaModel {
        self.compiled@
    }
}

impl Clone for Schema {
    fn clone(&self) -> (r: Self)
        ensures
            r@ == self@,
    {
        Schema { compiled: self.compiled.clone() }
    }
}

impl Schema {
    /// Parses `source` and composes it into a ready-to-validate schema. `resolver` is
    /// consulted for any reference to another schema that this one (transitively) makes;
    /// where there is none, it is never called.
    pub fn compile<R: SchemaResolver>(source: &SchemaSource, resolver: &R) -> (r: Result<
        Schema,
        CompileError,
    >)
        ensures
            match schema_of(source@, None) {
                Err(message) => match r {
                    Err(CompileError::Parse(error)) => error@ == message,
                    _ => false,
                },
                Ok(root) => exists|log: Feed|
                    consistent(resolver, log) && match #[trigger] compiled(root, log) {
                        Err(stop) => match r {
                            Err(CompileError::Schema(error)) => stop == Some(error@),
                            _ => false,
                        },
                        Ok(schema) => r is Ok && r->Ok_0@ == schema,
                    },
            },
    {
        let document = match parse(source) {
            Err(error) => {
                return Err(CompileError::from(error));
            },
            Ok(document) => document,
        };
        match simplify(&document, resolver) {
            Err(error) => Err(CompileError::from(error)),
            Ok(compiled) => Ok(Schema { compiled }),
        }
    }

    /// Validates `root` (and everything reachable from it) against this schema.
    /// `registry` supplies the meaning of `data` and `value` patterns; see
    /// [`DatatypeRegistry`] for what is built in and how to add more.
    ///
    /// Returns the list of problems found; empty means that `root` is valid. Returns
    /// [`DatatypeError`] instead of validating at all if the schema uses a datatype
    /// library, type or parameter that `registry` does not recognize, since whether the
    /// document would pass a check that cannot be performed is unknowable.
    pub fn validate<E: Element>(&self, registry: &DatatypeRegistry, root: &E) -> (r: Result<
        Vec<ValidationError>,
        DatatypeError,
    >)
        ensures
            match r {
                Ok(errors) => schema_datatype_problem(self@, registry@, MAX_DEPTH as nat) is None
                    && errors_of(errors@) == document_errors(self@, registry@, root.model()),
                Err(error) => schema_datatype_problem(self@, registry@, MAX_DEPTH as nat) == Some(
                    error@,
                ),
            },
    {
        validate(&self.compiled, registry, root)
    }

    /// The composed schema itself, for callers that need it directly (such as
    /// [`CompiledSchema::definition_count`] for diagnostics).
    pub fn compiled(&self) -> (r: &CompiledSchema)
        ensures
            r@ == self@,
    {
        &self.compiled
    }
}

/// Either step of [`Schema::compile`] can fail on its own.
#[derive(Clone, Debug, PartialEq, Eq)]
pub enum CompileError {
    /// The source is not well-formed in its declared syntax.
    Parse(ParseError),
    /// The source parsed, but composing it failed: an undefined reference, illegal
    /// recursion, a violated restriction.
    Schema(SchemaError),
}

impl View for CompileError {
    type V = Text;

    open spec fn view(&self) -> Text {
        match self {
            CompileError::Parse(error) => error@,
            CompileError::Schema(error) => error@,
        }
    }
}

impl CompileError {
    /// The error's message.
    pub fn to_string(&self) -> (r: String)
        ensures
            r@ == self@,
    {
        match self {
            CompileError::Parse(error) => error.to_string(),
            CompileError::Schema(error) => error.to_string(),
        }
    }
}

impl From<ParseError> for CompileError {
    fn from(error: ParseError) -> (r: Self) {
        CompileError::Parse(error)
    }
}

impl vstd::std_specs::convert::FromSpecImpl<ParseError> for CompileError {
    open spec fn obeys_from_spec() -> bool {
        true
    }

    open spec fn from_spec(error: ParseError) -> Self {
        CompileError::Parse(error)
    }
}

impl From<SchemaError> for CompileError {
    fn from(error: SchemaError) -> (r: Self) {
        CompileError::Schema(error)
    }
}

impl vstd::std_specs::convert::FromSpecImpl<SchemaError> for CompileError {
    open spec fn obeys_from_spec() -> bool {
        true
    }

    open spec fn from_spec(error: SchemaError) -> Self {
        CompileError::Schema(error)
    }
}

} // verus!
