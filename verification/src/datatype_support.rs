//! What the check of a schema's datatypes comes to: it passes exactly where every `data`
//! and `value` of the schema is one that the registry can handle.
use vstd::prelude::*;

use crate::datatypes::registry::RegistryModel;
use crate::derivative::Defs;
use crate::grammar::PatternModel;
use crate::simplify::SchemaModel;
use crate::string_map::{lemma_lookup_index, lookup};
use crate::text::Text;
use crate::validator::{
    all_supported, defs_supported, schema_datatype_problem, support_walk, support_walk_all,
    support_walk_defs, supported,
};

verus! {

/// What a walk passes is supported.
proof fn lemma_walk_supported(
    p: PatternModel,
    defs: Defs,
    registry: RegistryModel,
    seen: Seq<Text>,
    depth: nat,
)
    requires
        support_walk(p, defs, registry, seen, depth) is Ok,
    ensures
        supported(p, registry),
    decreases p, 0nat,
{
    match p {
        PatternModel::Data { datatype, datatype_library, params, except, context } => {
            lemma_walk_all_supported(except, defs, registry, seen, depth, except.len());
        },
        PatternModel::Element { name, body, context } => {
            lemma_walk_all_supported(body, defs, registry, seen, depth, body.len());
        },
        PatternModel::Attribute { name, body, context } => {
            lemma_walk_all_supported(body, defs, registry, seen, depth, body.len());
        },
        PatternModel::Group(values) => {
            lemma_walk_all_supported(values, defs, registry, seen, depth, values.len());
        },
        PatternModel::Interleave(values) => {
            lemma_walk_all_supported(values, defs, registry, seen, depth, values.len());
        },
        PatternModel::Choice(values) => {
            lemma_walk_all_supported(values, defs, registry, seen, depth, values.len());
        },
        PatternModel::OneOrMore(values) => {
            lemma_walk_all_supported(values, defs, registry, seen, depth, values.len());
        },
        PatternModel::List(values) => {
            lemma_walk_all_supported(values, defs, registry, seen, depth, values.len());
        },
        _ => {},
    }
}

/// What a walk passes is supported.
proof fn lemma_walk_all_supported(
    s: Seq<PatternModel>,
    defs: Defs,
    registry: RegistryModel,
    seen: Seq<Text>,
    depth: nat,
    n: nat,
)
    requires
        n <= s.len(),
        support_walk_all(s, defs, registry, seen, depth, n) is Ok,
    ensures
        forall|i: int| 0 <= i < n ==> supported(#[trigger] s[i], registry),
        n == s.len() ==> all_supported(s, registry),
    decreases s, n,
{
    if n > 0 {
        lemma_walk_all_supported(s, defs, registry, seen, depth, (n - 1) as nat);
        let met = support_walk_all(s, defs, registry, seen, depth, (n - 1) as nat)->Ok_0;
        lemma_walk_supported(s[n - 1], defs, registry, met, depth);
    }
}

/// What is supported, a walk passes.
proof fn lemma_supported_walk(
    p: PatternModel,
    defs: Defs,
    registry: RegistryModel,
    seen: Seq<Text>,
    depth: nat,
)
    requires
        supported(p, registry),
        defs_supported(defs, registry),
    ensures
        support_walk(p, defs, registry, seen, depth) is Ok,
    decreases depth, p, 0nat,
{
    match p {
        PatternModel::Data { datatype, datatype_library, params, except, context } => {
            lemma_supported_walk_all(except, defs, registry, seen, depth, except.len());
        },
        PatternModel::Element { name, body, context } => {
            lemma_supported_walk_all(body, defs, registry, seen, depth, body.len());
        },
        PatternModel::Attribute { name, body, context } => {
            lemma_supported_walk_all(body, defs, registry, seen, depth, body.len());
        },
        PatternModel::Group(values) => {
            lemma_supported_walk_all(values, defs, registry, seen, depth, values.len());
        },
        PatternModel::Interleave(values) => {
            lemma_supported_walk_all(values, defs, registry, seen, depth, values.len());
        },
        PatternModel::Choice(values) => {
            lemma_supported_walk_all(values, defs, registry, seen, depth, values.len());
        },
        PatternModel::OneOrMore(values) => {
            lemma_supported_walk_all(values, defs, registry, seen, depth, values.len());
        },
        PatternModel::List(values) => {
            lemma_supported_walk_all(values, defs, registry, seen, depth, values.len());
        },
        PatternModel::Ref(name) => {
            if !seen.contains(name) && depth > 0 {
                match lookup(defs, name) {
                    Some(target) => {
                        let i = lemma_lookup_index(defs, name);
                        assert(supported(defs[i].1, registry));
                        lemma_supported_walk(
                            target,
                            defs,
                            registry,
                            seen.push(name),
                            (depth - 1) as nat,
                        );
                    },
                    None => {},
                }
            }
        },
        _ => {},
    }
}

/// What is supported, a walk passes.
proof fn lemma_supported_walk_all(
    s: Seq<PatternModel>,
    defs: Defs,
    registry: RegistryModel,
    seen: Seq<Text>,
    depth: nat,
    n: nat,
)
    requires
        all_supported(s, registry),
        defs_supported(defs, registry),
    ensures
        support_walk_all(s, defs, registry, seen, depth, n) is Ok,
    decreases depth, s, n,
{
    if n == 0 || n > s.len() {
    } else {
        lemma_supported_walk_all(s, defs, registry, seen, depth, (n - 1) as nat);
        let met = support_walk_all(s, defs, registry, seen, depth, (n - 1) as nat)->Ok_0;
        assert(supported(s[n - 1], registry));
        lemma_supported_walk(s[n - 1], defs, registry, met, depth);
    }
}

/// What a walk through the named patterns passes is supported.
proof fn lemma_walk_defs_supported(
    defs: Defs,
    registry: RegistryModel,
    seen: Seq<Text>,
    depth: nat,
    n: nat,
)
    requires
        n <= defs.len(),
        support_walk_defs(defs, registry, seen, depth, n) is Ok,
    ensures
        forall|i: int| 0 <= i < n ==> supported((#[trigger] defs[i]).1, registry),
    decreases n,
{
    if n > 0 {
        lemma_walk_defs_supported(defs, registry, seen, depth, (n - 1) as nat);
        let met = support_walk_defs(defs, registry, seen, depth, (n - 1) as nat)->Ok_0;
        lemma_walk_supported(defs[n - 1].1, defs, registry, met, depth);
    }
}

/// Named patterns that are supported, a walk passes.
proof fn lemma_supported_walk_defs(
    defs: Defs,
    registry: RegistryModel,
    seen: Seq<Text>,
    depth: nat,
    n: nat,
)
    requires
        defs_supported(defs, registry),
    ensures
        support_walk_defs(defs, registry, seen, depth, n) is Ok,
    decreases n,
{
    if n == 0 || n > defs.len() {
    } else {
        lemma_supported_walk_defs(defs, registry, seen, depth, (n - 1) as nat);
        let met = support_walk_defs(defs, registry, seen, depth, (n - 1) as nat)->Ok_0;
        assert(supported(defs[n - 1].1, registry));
        lemma_supported_walk(defs[n - 1].1, defs, registry, met, depth);
    }
}

/// A document is validated exactly where the registry can handle every `data` and `value`
/// of the schema, wherever it stands: no check of a value is ever left undone.
pub proof fn law_every_datatype_is_checked(
    schema: SchemaModel,
    registry: RegistryModel,
    depth: nat,
)
    ensures
        schema_datatype_problem(schema, registry, depth) is None <==> supported(
            schema.start,
            registry,
        ) && defs_supported(schema.definitions, registry),
{
    let defs = schema.definitions;
    if schema_datatype_problem(schema, registry, depth) is None {
        lemma_walk_supported(schema.start, defs, registry, Seq::empty(), depth);
        let met = support_walk(schema.start, defs, registry, Seq::empty(), depth)->Ok_0;
        lemma_walk_defs_supported(defs, registry, met, depth, defs.len());
    }
    if supported(schema.start, registry) && defs_supported(defs, registry) {
        lemma_supported_walk(schema.start, defs, registry, Seq::empty(), depth);
        let met = support_walk(schema.start, defs, registry, Seq::empty(), depth)->Ok_0;
        lemma_supported_walk_defs(defs, registry, met, depth, defs.len());
    }
}

} // verus!
