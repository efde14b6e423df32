//! Datatype libraries: the built-in one (`string` and `token`), that of the W3C XML
//! Schema datatypes, and the interface by which a caller adds others.
pub mod binary64;
pub mod builtin;
pub mod calendar;
pub mod checks;
pub mod decimal;
pub mod duration;
pub mod facets;
pub mod fractions;
pub mod lexical;
pub mod natural;
pub mod registry;
pub mod rounding;
pub mod temporal;
pub mod xsd;

pub use registry::XSD_DATATYPE_LIBRARY;
pub use registry::{DatatypeContext, DatatypeError, DatatypeLibrary, DatatypeRegistry};
