//! The interface of a datatype library, and the registry that maps the URIs by which
//! schemas name libraries to implementations.
use vstd::prelude::*;

use super::builtin::{builtin_model, BuiltinLibrary};
use super::xsd::{xsd_model, XsdLibrary};
use crate::string_map::{inserted, lemma_inserted_lookup, lookup, StringMap};
use crate::text::{concat3, concat6, same, IntoText, Text};

verus! {

/// The URI that identifies the XML Schema datatype library.
pub const XSD_DATATYPE_LIBRARY: &'static str = "http://www.w3.org/2001/XMLSchema-datatypes";

/// The namespace prefixes in scope, innermost last.
pub type Bindings = Seq<(Text, Text)>;

/// The namespace that the last binding of a prefix gives it.
pub open spec fn resolved(bindings: Bindings, prefix: Text) -> Option<Text>
    decreases bindings.len(),
{
    if bindings.len() == 0 {
        None
    } else if bindings.last().0 == prefix {
        Some(bindings.last().1)
    } else {
        resolved(bindings.drop_last(), prefix)
    }
}

/// What a datatype library does: what is wrong with a type and its parameters, which
/// texts are values of a type with given parameters, and which texts are the same value.
#[verifier::ext_equal]
pub struct LibraryModel {
    pub problem: spec_fn(Text, Seq<(Text, Text)>) -> Option<Text>,
    pub accepts: spec_fn(Text, Seq<(Text, Text)>, Text, Bindings) -> bool,
    pub same: spec_fn(Text, Text, Bindings, Text, Bindings) -> bool,
}

/// The models of parameters.
pub open spec fn pairs(params: Seq<(&str, &str)>) -> Seq<(Text, Text)> {
    Seq::new(params.len(), |i: int| (params[i].0@, params[i].1@))
}

/// The message of a failed check; `None` where it passed.
pub open spec fn problem(r: Result<(), String>) -> Option<Text> {
    match r {
        Ok(_) => None,
        Err(message) => Some(message@),
    }
}

/// The models of owned pairs of strings.
pub open spec fn bindings_of(s: Seq<(String, String)>) -> Bindings {
    Seq::new(s.len(), |i: int| (s[i].0@, s[i].1@))
}

/// The in-scope XML namespace prefix bindings at the point where a value occurs, needed
/// to resolve `QName`- and `NOTATION`-typed values, whose lexical form (`prefix:local`)
/// only denotes a value together with a prefix-to-URI binding.
#[derive(Clone, Debug, Default)]
pub struct DatatypeContext {
    bindings: Vec<(String, String)>,
}

impl View for DatatypeContext {
    type V = Bindings;

    closed spec fn view(&self) -> Bindings {
        bindings_of(self.bindings@)
    }
}

impl DatatypeContext {
    /// The context without bindings.
    pub fn empty() -> (r: Self)
        ensures
            r@ == Seq::<(Text, Text)>::empty(),
    {
        let r = DatatypeContext { bindings: Vec::new() };
        assert(r@ =~= Seq::<(Text, Text)>::empty());
        r
    }

    /// The context with the given bindings.
    pub fn from_bindings(bindings: Vec<(String, String)>) -> (r: Self)
        ensures
            r@ == bindings_of(bindings@),
    {
        DatatypeContext { bindings }
    }

    /// The namespace URI bound to `prefix` (`""` for the default namespace), or `None`
    /// if no such binding is in scope. Later bindings win over earlier ones.
    pub fn resolve(&self, prefix: &str) -> (r: Option<&str>)
        ensures
            match r {
                Some(uri) => resolved(self@, prefix@) == Some(uri@),
                None => resolved(self@, prefix@) is None,
            },
    {
        let mut n: usize = self.bindings.len();
        assert(self@.take(n as int) =~= self@);
        while n > 0
            invariant
                n <= self.bindings.len(),
                resolved(self@, prefix@) == resolved(self@.take(n as int), prefix@),
            decreases n,
        {
            assert(self@.take(n as int).drop_last() =~= self@.take(n - 1));
            assert(self@.take(n as int).last() == self@[n - 1]);
            if same(self.bindings[n - 1].0.as_str(), prefix) {
                return Some(self.bindings[n - 1].1.as_str());
            }
            n -= 1;
        }
        None
    }
}

/// A datatype library: recognizes a set of type names, each with its own applicable
/// parameters (facets).
pub trait DatatypeLibrary: Send + Sync {
    /// What the library does.
    open spec fn model(&self) -> LibraryModel {
        arbitrary()
    }

    /// Checks that `datatype` is known to this library and that `params` are
    /// individually well-formed and applicable to it. Called once per `data` or `value`
    /// pattern, before any document is validated.
    fn validate_params(&self, datatype: &str, params: &[(&str, &str)]) -> (r: Result<(), String>)
        ensures
            problem(r) == (self.model().problem)(datatype@, pairs(params@)),
    ;

    /// Whether `value` is a legal value of `datatype` (already checked valid via
    /// [`Self::validate_params`]) satisfying every parameter. The `except` branches of a
    /// schema are handled by the caller, not here.
    fn matches(
        &self,
        datatype: &str,
        params: &[(&str, &str)],
        value: &str,
        context: &DatatypeContext,
    ) -> (r: bool)
        ensures
            r == (self.model().accepts)(datatype@, pairs(params@), value@, context@),
    ;

    /// Whether `expected` (the schema's literal, resolved against `expected_context`, the
    /// schema's own namespace bindings) and `actual` (the document's text, resolved
    /// against `actual_context`, the document's bindings at that point) denote the same
    /// value of `datatype`.
    fn values_equal(
        &self,
        datatype: &str,
        expected: &str,
        expected_context: &DatatypeContext,
        actual: &str,
        actual_context: &DatatypeContext,
    ) -> (r: bool)
        ensures
            r == (self.model().same)(
                datatype@,
                expected@,
                expected_context@,
                actual@,
                actual_context@,
            ),
    ;
}

/// The schema uses a datatype library, type or parameter that a [`DatatypeRegistry`]
/// cannot handle.
#[derive(Clone, Debug, PartialEq, Eq)]
pub struct DatatypeError {
    library: String,
    message: String,
}

/// The model of a [`DatatypeError`].
#[verifier::ext_equal]
pub struct DatatypeProblem {
    pub library: Text,
    pub message: Text,
}

/// The problem of a library that is not registered.
pub open spec fn unsupported_library_problem(library: Text) -> DatatypeProblem {
    DatatypeProblem { library, message: "unsupported datatype library `"@ + library + "`"@ }
}

/// The problem of a type or parameter that a library objects to.
pub open spec fn type_problem_of(library: Text, datatype: Text, reason: Text) -> DatatypeProblem {
    DatatypeProblem {
        library,
        message: "datatype `"@ + datatype + "` in library `"@ + library + "`: "@ + reason,
    }
}

impl View for DatatypeError {
    type V = DatatypeProblem;

    closed spec fn view(&self) -> DatatypeProblem {
        DatatypeProblem { library: self.library@, message: self.message@ }
    }
}

impl DatatypeError {
    /// The error of a library that is not registered.
    pub fn unsupported_library(library: &str) -> (r: Self)
        ensures
            r@ == unsupported_library_problem(library@),
    {
        DatatypeError {
            message: concat3("unsupported datatype library `", library, "`"),
            library: library.to_owned(),
        }
    }

    /// The error of a type or parameter that a library objects to.
    pub fn type_problem(library: &str, datatype: &str, reason: &str) -> (r: Self)
        ensures
            r@ == type_problem_of(library@, datatype@, reason@),
    {
        DatatypeError {
            message: concat6(
                "datatype `",
                datatype,
                "` in library `",
                library,
                "`: ",
                reason,
            ),
            library: library.to_owned(),
        }
    }

    /// The offending library's URI (the empty string denotes the built-in library).
    pub fn library(&self) -> (r: &str)
        ensures
            r@ == self@.library,
    {
        self.library.as_str()
    }

    /// The error's message.
    pub fn to_string(&self) -> (r: String)
        ensures
            r@ == self@.message,
    {
        self.message.clone()
    }
}

/// A registered library: one of those that this crate implements itself, or one of the
/// caller's.
pub enum Registered<L> {
    /// The built-in library.
    Builtin(BuiltinLibrary),
    /// The XML Schema datatype library.
    Xsd(XsdLibrary),
    /// A library of the caller's.
    Other(L),
}

/// A registered library, with a caller's behind a pointer.
pub type Library = Registered<Box<dyn DatatypeLibrary>>;

impl View for Library {
    type V = LibraryModel;

    open spec fn view(&self) -> LibraryModel {
        match self {
            Registered::Builtin(library) => builtin_model(),
            Registered::Xsd(library) => xsd_model(),
            Registered::Other(library) => library.model(),
        }
    }
}

impl Library {
    /// See [`DatatypeLibrary::validate_params`].
    pub fn validate_params(&self, datatype: &str, params: &[(&str, &str)]) -> (r: Result<
        (),
        String,
    >)
        ensures
            problem(r) == (self@.problem)(datatype@, pairs(params@)),
    {
        match self {
            Registered::Builtin(library) => library.validate_params(datatype, params),
            Registered::Xsd(library) => library.validate_params(datatype, params),
            Registered::Other(library) => library.validate_params(datatype, params),
        }
    }

    /// See [`DatatypeLibrary::matches`].
    pub fn matches(
        &self,
        datatype: &str,
        params: &[(&str, &str)],
        value: &str,
        context: &DatatypeContext,
    ) -> (r: bool)
        ensures
            r == (self@.accepts)(datatype@, pairs(params@), value@, context@),
    {
        match self {
            Registered::Builtin(library) => library.matches(datatype, params, value, context),
            Registered::Xsd(library) => library.matches(datatype, params, value, context),
            Registered::Other(library) => library.matches(datatype, params, value, context),
        }
    }

    /// See [`DatatypeLibrary::values_equal`].
    pub fn values_equal(
        &self,
        datatype: &str,
        expected: &str,
        expected_context: &DatatypeContext,
        actual: &str,
        actual_context: &DatatypeContext,
    ) -> (r: bool)
        ensures
            r == (self@.same)(
                datatype@,
                expected@,
                expected_context@,
                actual@,
                actual_context@,
            ),
    {
        match self {
            Registered::Builtin(library) => library.values_equal(
                datatype,
                expected,
                expected_context,
                actual,
                actual_context,
            ),
            Registered::Xsd(library) => library.values_equal(
                datatype,
                expected,
                expected_context,
                actual,
                actual_context,
            ),
            Registered::Other(library) => library.values_equal(
                datatype,
                expected,
                expected_context,
                actual,
                actual_context,
            ),
        }
    }
}

/// Maps library URIs to implementations for one [`crate::validate`] call.
pub struct DatatypeRegistry {
    libraries: StringMap<Library>,
}

/// The libraries of a registry, by URI.
pub type RegistryModel = Seq<(Text, LibraryModel)>;

impl View for DatatypeRegistry {
    type V = RegistryModel;

    closed spec fn view(&self) -> RegistryModel {
        self.libraries@
    }
}

/// The libraries that are there from the start.
pub open spec fn standard_libraries() -> RegistryModel {
    inserted(
        seq![(Seq::<char>::empty(), builtin_model())],
        XSD_DATATYPE_LIBRARY@,
        xsd_model(),
    )
}

/// A library that is registered is the one under its URI from then on, even where another
/// was, and under every other URI there is what was.
pub proof fn law_registration_replaces(
    registry: RegistryModel,
    library_uri: Text,
    library: LibraryModel,
)
    ensures
        lookup(inserted(registry, library_uri, library), library_uri) == Some(library),
        forall|other: Text|
            other != library_uri ==> #[trigger] lookup(
                inserted(registry, library_uri, library),
                other,
            ) == lookup(registry, other),
{
    lemma_inserted_lookup(registry, library_uri, library, library_uri);
    assert forall|other: Text| other != library_uri implies #[trigger] lookup(
        inserted(registry, library_uri, library),
        other,
    ) == lookup(registry, other) by {
        lemma_inserted_lookup(registry, library_uri, library, other);
    }
}

impl Default for DatatypeRegistry {
    fn default() -> (r: Self)
        ensures
            r@ == standard_libraries(),
    {
        DatatypeRegistry::new()
    }
}

impl DatatypeRegistry {
    /// A registry with the built-in library (`""`) and the XML Schema datatype library
    /// registered; `register` adds to or replaces them.
    pub fn new() -> (r: Self)
        ensures
            r@ == standard_libraries(),
    {
        let mut registry = DatatypeRegistry::builtin_only();
        registry.libraries.insert(XSD_DATATYPE_LIBRARY.to_owned(), Registered::Xsd(XsdLibrary));
        registry
    }

    /// A registry with only the built-in library (`""`) registered: every other library
    /// fails fast with [`DatatypeError`].
    pub fn builtin_only() -> (r: Self)
        ensures
            r@ == seq![(Seq::<char>::empty(), builtin_model())],
    {
        let mut libraries: StringMap<Library> = StringMap::new();
        libraries.insert(String::new(), Registered::Builtin(BuiltinLibrary));
        DatatypeRegistry { libraries }
    }

    /// Registers `library` under `library_uri`, replacing any previous registration for
    /// that URI (the ones that are there from the start, too).
    pub fn register(
        &mut self,
        library_uri: impl IntoText,
        library: Box<dyn DatatypeLibrary>,
    ) -> (r: &mut Self)
        ensures
            r@ == inserted(old(self)@, library_uri.chars_of(), library.model()),
            lookup(r@, library_uri.chars_of()) == Some(library.model()),
            forall|other: Text|
                other != library_uri.chars_of() ==> #[trigger] lookup(r@, other) == lookup(
                    old(self)@,
                    other,
                ),
            *final(self) == *final(r),
    {
        proof {
            law_registration_replaces(self@, library_uri.chars_of(), library.model());
        }
        let entry = Registered::Other(library);
        self.libraries.insert(library_uri.into_text(), entry);
        self
    }

    /// The library registered under a URI.
    pub fn get(&self, library_uri: &str) -> (r: Option<&Library>)
        ensures
            match r {
                Some(library) => lookup(self@, library_uri@) == Some(library@),
                None => lookup(self@, library_uri@) is None,
            },
    {
        self.libraries.get(library_uri)
    }
}

} // verus!
