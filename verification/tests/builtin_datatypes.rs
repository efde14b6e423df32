use relax_ng::datatypes::builtin::BuiltinLibrary;
use relax_ng::{DatatypeContext, DatatypeLibrary};

fn context() -> DatatypeContext {
    DatatypeContext::empty()
}

#[test]
fn string_equality_is_exact() {
    assert!(!BuiltinLibrary.values_equal("string", "a  b", &context(), "a b", &context()));
    assert!(BuiltinLibrary.values_equal("string", "a b", &context(), "a b", &context()));
}

#[test]
fn token_equality_collapses_whitespace() {
    assert!(BuiltinLibrary.values_equal("token", "a  b", &context(), "a b", &context()));
    assert!(BuiltinLibrary.values_equal("token", "  a b ", &context(), "a b", &context()));
    assert!(!BuiltinLibrary.values_equal("token", "a b", &context(), "a c", &context()));
}

#[test]
fn only_string_and_token_are_known() {
    assert!(BuiltinLibrary.validate_params("string", &[]).is_ok());
    assert!(BuiltinLibrary.validate_params("token", &[]).is_ok());
    assert!(BuiltinLibrary.validate_params("NCName", &[]).is_err());
}

#[test]
fn no_parameters_are_accepted() {
    assert!(
        BuiltinLibrary
            .validate_params("string", &[("pattern", "a*")])
            .is_err()
    );
}
