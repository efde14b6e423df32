//! What accepts that nothing follows, form by form.
use vstd::prelude::*;

use crate::datatypes::builtin::{builtin_model, builtin_type};
use crate::datatypes::registry::RegistryModel;
use crate::derivative::{
    all_nullable, data_accepts, excluded, is_nullable, param_texts, some_nullable,
    structurally_empty, Defs, MAX_DEPTH,
};
use crate::grammar::PatternModel;
use crate::grounded::{grounded, lemma_nullable_steady};
use crate::string_map::{has_key, lookup};

verus! {

/// Whether a pattern accepts that nothing follows, by the form that it has, as far as it is
/// not a `data`, a `value` or a `list`: `empty` and `text` do, what is not allowed, an element
/// and an attribute do not, all operands of a group or an interleave have to, some operand of
/// a choice has to, a repetition does where what it repeats does, and a reference does where
/// what it refers to does.
pub proof fn law_nullable_by_form(p: PatternModel, defs: Defs, registry: RegistryModel)
    requires
        grounded(p, defs, MAX_DEPTH as nat),
        p is OneOrMore ==> p->OneOrMore_0.len() == 1,
        p is Ref ==> has_key(defs, p->Ref_0),
    ensures
        ({
            let depth = MAX_DEPTH as nat;
            match p {
                PatternModel::Empty => is_nullable(p, defs, registry, depth),
                PatternModel::Text => is_nullable(p, defs, registry, depth),
                PatternModel::NotAllowed => !is_nullable(p, defs, registry, depth),
                PatternModel::Element { name, body, context } => !is_nullable(
                    p,
                    defs,
                    registry,
                    depth,
                ),
                PatternModel::Attribute { name, body, context } => !is_nullable(
                    p,
                    defs,
                    registry,
                    depth,
                ),
                PatternModel::Group(values) => is_nullable(p, defs, registry, depth)
                    <==> forall|i: int|
                    0 <= i < values.len() ==> is_nullable(
                        #[trigger] values[i],
                        defs,
                        registry,
                        depth,
                    ),
                PatternModel::Interleave(values) => is_nullable(p, defs, registry, depth)
                    <==> forall|i: int|
                    0 <= i < values.len() ==> is_nullable(
                        #[trigger] values[i],
                        defs,
                        registry,
                        depth,
                    ),
                PatternModel::Choice(values) => is_nullable(p, defs, registry, depth)
                    <==> exists|i: int|
                    0 <= i < values.len() && is_nullable(
                        #[trigger] values[i],
                        defs,
                        registry,
                        depth,
                    ),
                PatternModel::OneOrMore(values) => is_nullable(p, defs, registry, depth)
                    == is_nullable(values[0], defs, registry, depth),
                PatternModel::Ref(name) => is_nullable(p, defs, registry, depth) == is_nullable(
                    lookup(defs, name)->0,
                    defs,
                    registry,
                    depth,
                ),
                _ => true,
            }
        }),
{
    let depth = MAX_DEPTH as nat;
    match p {
        PatternModel::Group(values) => {
            assert(is_nullable(p, defs, registry, depth) == all_nullable(
                values,
                defs,
                registry,
                depth,
            ));
        },
        PatternModel::Interleave(values) => {
            assert(is_nullable(p, defs, registry, depth) == all_nullable(
                values,
                defs,
                registry,
                depth,
            ));
        },
        PatternModel::Choice(values) => {
            assert(is_nullable(p, defs, registry, depth) == some_nullable(
                values,
                defs,
                registry,
                depth,
            ));
        },
        PatternModel::Ref(name) => {
            lemma_nullable_steady(
                lookup(defs, name)->0,
                defs,
                registry,
                (depth - 1) as nat,
                depth,
            );
        },
        _ => {},
    }
}

/// A `string` or a `token` of the built-in library, without exceptions, accepts that nothing
/// follows: it stands for the empty string. A list of it does not, since a list needs a token
/// for it.
pub proof fn law_nullable_text_types(p: PatternModel, defs: Defs, registry: RegistryModel)
    requires
        lookup(registry, Seq::empty()) == Some(builtin_model()),
        p is Data,
        p->Data_datatype_library is None || p->Data_datatype_library == Some(Seq::<char>::empty()),
        builtin_type(p->Data_datatype),
        p->Data_except.len() == 0,
    ensures
        is_nullable(p, defs, registry, MAX_DEPTH as nat),
        !is_nullable(PatternModel::List(seq![p]), defs, registry, MAX_DEPTH as nat),
{
    let depth = MAX_DEPTH as nat;
    let none = Seq::<char>::empty();
    let params = p->Data_params;
    assert((builtin_model().accepts)(
        p->Data_datatype,
        param_texts(params),
        none,
        Seq::empty(),
    ));
    assert(data_accepts(
        registry,
        p->Data_datatype_library,
        p->Data_datatype,
        params,
        none,
        Seq::empty(),
    ));
    assert(!excluded(p->Data_except, none, defs, registry, Seq::empty(), depth));
    assert(!structurally_empty(seq![p][0], defs, depth));
}

/// A list of nothing accepts that nothing follows, and a list of what is not allowed does not.
pub proof fn law_nullable_lists(defs: Defs, registry: RegistryModel)
    ensures
        is_nullable(
            PatternModel::List(seq![PatternModel::Empty]),
            defs,
            registry,
            MAX_DEPTH as nat,
        ),
        !is_nullable(
            PatternModel::List(seq![PatternModel::NotAllowed]),
            defs,
            registry,
            MAX_DEPTH as nat,
        ),
{
    let depth = MAX_DEPTH as nat;
    assert(structurally_empty(seq![PatternModel::Empty][0], defs, depth));
    assert(!structurally_empty(seq![PatternModel::NotAllowed][0], defs, depth));
}

} // verus!
