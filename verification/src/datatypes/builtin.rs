//! The built-in datatype library, which the empty string identifies. It has exactly two
//! datatypes, `string` and `token`, neither taking any parameters.
use vstd::prelude::*;

use super::registry::{pairs, problem, Bindings, DatatypeContext, DatatypeLibrary, LibraryModel};
use crate::text::{collapse, collapse_whitespace, concat3, concat5, same, same_chars, to_chars, Text};

verus! {

/// The built-in library.
pub struct BuiltinLibrary;

/// Whether the built-in library has the type.
pub open spec fn builtin_type(datatype: Text) -> bool {
    datatype == "string"@ || datatype == "token"@
}

/// What is wrong with a type and its parameters.
pub open spec fn builtin_problem(datatype: Text, params: Seq<(Text, Text)>) -> Option<Text> {
    if !builtin_type(datatype) {
        Some("unknown built-in type `"@ + datatype + "` (only `string` and `token` exist)"@)
    } else if params.len() > 0 {
        Some("`"@ + datatype + "` takes no parameters, found `"@ + params[0].0 + "`"@)
    } else {
        None
    }
}

/// Whether two texts are the same value: `token` disregards differences in whitespace,
/// and `string` none.
pub open spec fn builtin_same(datatype: Text, expected: Text, actual: Text) -> bool {
    if datatype == "token"@ {
        collapse(expected) == collapse(actual)
    } else {
        expected == actual
    }
}

/// The built-in library's behaviour.
pub open spec fn builtin_model() -> LibraryModel {
    LibraryModel {
        problem: |datatype: Text, params: Seq<(Text, Text)>| builtin_problem(datatype, params),
        accepts: |datatype: Text, params: Seq<(Text, Text)>, value: Text, context: Bindings|
            builtin_type(datatype),
        same: |
            datatype: Text,
            expected: Text,
            expected_context: Bindings,
            actual: Text,
            actual_context: Bindings,
        | builtin_same(datatype, expected, actual),
    }
}

impl DatatypeLibrary for BuiltinLibrary {
    open spec fn model(&self) -> LibraryModel {
        builtin_model()
    }

    fn validate_params(&self, datatype: &str, params: &[(&str, &str)]) -> (r: Result<(), String>) {
        if !same(datatype, "string") && !same(datatype, "token") {
            return Err(
                concat3(
                    "unknown built-in type `",
                    datatype,
                    "` (only `string` and `token` exist)",
                ),
            );
        }
        if params.len() > 0 {
            let first = params[0].0;
            assert(pairs(params@)[0].0 == first@);
            return Err(concat5("`", datatype, "` takes no parameters, found `", first, "`"));
        }
        Ok(())
    }

    fn matches(
        &self,
        datatype: &str,
        params: &[(&str, &str)],
        value: &str,
        context: &DatatypeContext,
    ) -> (r: bool) {
        same(datatype, "string") || same(datatype, "token")
    }

    fn values_equal(
        &self,
        datatype: &str,
        expected: &str,
        expected_context: &DatatypeContext,
        actual: &str,
        actual_context: &DatatypeContext,
    ) -> (r: bool) {
        if same(datatype, "token") {
            let left = collapse_whitespace(to_chars(expected).as_slice());
            let right = collapse_whitespace(to_chars(actual).as_slice());
            same_chars(left.as_slice(), right.as_slice())
        } else {
            same(expected, actual)
        }
    }
}

} // verus!
