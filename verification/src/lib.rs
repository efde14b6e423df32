//! RELAX NG: reads a schema in the compact or the XML syntax, composes it, and
//! validates documents against it by derivatives of patterns.
use vstd::prelude::*;

pub mod acyclic;
pub mod algebra;
pub mod attribute_order;
pub mod combining;
pub mod compact;
pub mod compact_text;
pub mod compact_writing;
pub mod compose;
pub mod conformance;
pub mod contents;
pub mod data_apart;
pub mod datatype_support;
pub mod datatypes;
pub mod derivative;
pub mod determinism;
pub mod documents;
pub mod expectation;
pub mod forms;
pub mod grammar;
pub mod grounded;
pub mod language;
pub mod leaves;
pub mod lexer;
pub mod matching;
pub mod mixed;
pub mod name_class;
pub mod nullability;
pub mod numbers;
pub mod placement;
pub mod positions;
pub mod problems;
pub mod recognition;
pub mod recursion;
pub mod references;
pub mod resolver;
pub mod restrictions;
pub mod schema;
pub mod scopes;
pub mod self_contained;
pub mod shapes;
pub mod simplify;
pub mod string_map;
pub mod syntax;
pub mod text;
pub mod validator;
pub mod xml_syntax;
pub mod xml_tree;
pub mod xml_writing;

pub use compose::simplify;
pub use datatypes::{
    DatatypeContext, DatatypeError, DatatypeLibrary, DatatypeRegistry, XSD_DATATYPE_LIBRARY,
};
pub use grammar::SchemaDocument;
pub use resolver::{ResolveError, SchemaResolver, SchemaSource, SchemaSyntax};
pub use schema::{CompileError, Schema};
pub use simplify::{CompiledSchema, SchemaError};
pub use syntax::{parse, ParseError};
pub use validator::{
    validate, Content, Element, ExpandedName, ValidationError, ValidationErrorKind,
};

verus! {

} // verus!
