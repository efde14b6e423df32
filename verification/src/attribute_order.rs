//! Attributes in the order of their names, so that the order in which they are given cannot
//! matter.
use vstd::prelude::*;
use vstd::relations::{sorted_by, total_ordering};
use vstd::seq_lib::{lemma_sorted_unique, to_multiset_build, to_multiset_insert};

use crate::datatypes::registry::RegistryModel;
use crate::derivative::Defs;
use crate::grammar::{NameModel, PatternModel};
use crate::simplify::SchemaModel;
use crate::text::{
    lemma_text_lt_irreflexive, lemma_text_lt_total, lemma_text_lt_transitive, precedes, same,
    text_lt, Text,
};
use crate::validator::{
    attributes_of, child_event, document_errors, is_valid, law_valid_documents_have_no_problems,
    taken_attributes, taken_children, ContentModel, ElementModel, ExpandedName, NameView,
};

verus! {

/// An attribute: its name and its value.
pub type Attribute = (NameView, Text);

/// Whether one namespace comes before another; none comes first.
pub open spec fn namespace_lt(a: Option<Text>, b: Option<Text>) -> bool {
    match (a, b) {
        (None, Some(_)) => true,
        (Some(x), Some(y)) => text_lt(x, y),
        _ => false,
    }
}

/// Whether one attribute comes before another: by namespace, then by local name, then by
/// value.
pub open spec fn attribute_lt(a: Attribute, b: Attribute) -> bool {
    if a.0.namespace != b.0.namespace {
        namespace_lt(a.0.namespace, b.0.namespace)
    } else if a.0.local != b.0.local {
        text_lt(a.0.local, b.0.local)
    } else {
        text_lt(a.1, b.1)
    }
}

/// The order of attributes.
pub open spec fn by_name() -> spec_fn(Attribute, Attribute) -> bool {
    |a: Attribute, b: Attribute| !attribute_lt(b, a)
}

/// Attributes in order.
pub open spec fn in_order(s: Seq<Attribute>) -> Seq<Attribute> {
    s.sort_by(by_name())
}

/// Of two namespaces that differ, one comes first.
proof fn lemma_namespace_lt(a: Option<Text>, b: Option<Text>)
    ensures
        !namespace_lt(a, a),
        a != b ==> namespace_lt(a, b) || namespace_lt(b, a),
{
    if a is Some {
        lemma_text_lt_irreflexive(a->0);
    }
    if a is Some && b is Some && !text_lt(a->0, b->0) && !text_lt(b->0, a->0) {
        lemma_text_lt_total(a->0, b->0);
    }
}

/// Of two attributes that differ, one comes first.
proof fn lemma_attribute_lt(a: Attribute, b: Attribute)
    ensures
        !attribute_lt(a, a),
        a != b ==> attribute_lt(a, b) || attribute_lt(b, a),
{
    lemma_namespace_lt(a.0.namespace, b.0.namespace);
    lemma_text_lt_irreflexive(a.1);
    if a.0.local != b.0.local && !text_lt(a.0.local, b.0.local) && !text_lt(b.0.local, a.0.local) {
        lemma_text_lt_total(a.0.local, b.0.local);
    }
    if a.1 != b.1 && !text_lt(a.1, b.1) && !text_lt(b.1, a.1) {
        lemma_text_lt_total(a.1, b.1);
    }
}

/// What comes before what comes before a third comes before the third.
proof fn lemma_attribute_lt_transitive(a: Attribute, b: Attribute, c: Attribute)
    requires
        attribute_lt(a, b),
        attribute_lt(b, c),
    ensures
        attribute_lt(a, c),
{
    let (x, y, z) = (a.0.namespace, b.0.namespace, c.0.namespace);
    if x is Some && y is Some && z is Some && text_lt(x->0, y->0) && text_lt(y->0, z->0) {
        lemma_text_lt_transitive(x->0, y->0, z->0);
        lemma_text_lt_irreflexive(x->0);
    }
    let (l, m, n) = (a.0.local, b.0.local, c.0.local);
    if text_lt(l, m) && text_lt(m, n) {
        lemma_text_lt_transitive(l, m, n);
        lemma_text_lt_irreflexive(l);
    }
    if text_lt(a.1, b.1) && text_lt(b.1, c.1) {
        lemma_text_lt_transitive(a.1, b.1, c.1);
    }
}

/// Attributes are totally ordered.
pub proof fn lemma_total()
    ensures
        total_ordering(by_name()),
{
    let leq = by_name();
    assert forall|a: Attribute| #[trigger] leq(a, a) by {
        lemma_attribute_lt(a, a);
    }
    assert forall|a: Attribute, b: Attribute| #[trigger] leq(a, b) && #[trigger] leq(
        b,
        a,
    ) implies a == b by {
        lemma_attribute_lt(a, b);
    }
    assert forall|a: Attribute, b: Attribute| #[trigger] leq(a, b) || #[trigger] leq(b, a) by {
        if attribute_lt(a, b) && attribute_lt(b, a) {
            lemma_attribute_lt_transitive(a, b, a);
            lemma_attribute_lt(a, a);
        }
    }
    assert forall|a: Attribute, b: Attribute, c: Attribute| #[trigger]
        leq(a, b) && #[trigger] leq(b, c) implies leq(a, c) by {
        lemma_attribute_lt(a, b);
        lemma_attribute_lt(b, c);
        if attribute_lt(c, a) {
            if a != b {
                lemma_attribute_lt_transitive(c, a, b);
            }
        }
    }
}

/// Attributes that differ only in the order in which they are given are the same in order.
pub proof fn lemma_in_order(a: Seq<Attribute>, b: Seq<Attribute>)
    requires
        a.to_multiset() == b.to_multiset(),
    ensures
        in_order(a) == in_order(b),
{
    lemma_total();
    a.lemma_sort_by_ensures(by_name());
    b.lemma_sort_by_ensures(by_name());
    lemma_sorted_unique(in_order(a), in_order(b), by_name());
}

/// Whether one attribute comes before another; see [`attribute_lt`].
fn is_before(a: &(ExpandedName, String), b: &(ExpandedName, String)) -> (r: bool)
    ensures
        r == attribute_lt((a.0@, a.1@), (b.0@, b.1@)),
{
    match (&a.0.namespace, &b.0.namespace) {
        (None, Some(_)) => {
            return true;
        },
        (Some(_), None) => {
            return false;
        },
        (Some(x), Some(y)) => {
            if !same(x.as_str(), y.as_str()) {
                return precedes(x.as_str(), y.as_str());
            }
        },
        (None, None) => {},
    }
    if !same(a.0.local.as_str(), b.0.local.as_str()) {
        return precedes(a.0.local.as_str(), b.0.local.as_str());
    }
    precedes(a.1.as_str(), b.1.as_str())
}

/// Attributes in order; see [`in_order`].
pub fn sort_attributes(attributes: &Vec<(ExpandedName, String)>) -> (r: Vec<(ExpandedName, String)>)
    ensures
        attributes_of(r@) == in_order(attributes_of(attributes@)),
{
    broadcast use vstd::seq_lib::group_to_multiset_ensures;
    let ghost given = attributes_of(attributes@);
    let mut out: Vec<(ExpandedName, String)> = Vec::new();
    let mut i: usize = 0;
    proof {
        assert(attributes_of(out@) =~= given.take(0));
    }
    while i < attributes.len()
        invariant
            i <= attributes.len(),
            given == attributes_of(attributes@),
            attributes_of(out@).to_multiset() =~= given.take(i as int).to_multiset(),
            sorted_by(attributes_of(out@), by_name()),
        decreases attributes.len() - i,
    {
        let item = (attributes[i].0.copy(), attributes[i].1.clone());
        let ghost a: Attribute = (item.0@, item.1@);
        let ghost before = attributes_of(out@);
        let mut k: usize = out.len();
        while k > 0 && is_before(&item, &out[k - 1])
            invariant
                k <= out.len(),
                a == (item.0@, item.1@),
                before == attributes_of(out@),
                forall|j: int| k <= j < before.len() ==> attribute_lt(a, #[trigger] before[j]),
            decreases k,
        {
            k -= 1;
        }
        out.insert(k, item);
        proof {
            let after = attributes_of(out@);
            let leq = by_name();
            assert(after =~= before.insert(k as int, a));
            to_multiset_insert(before, k as int, a);
            to_multiset_build(given.take(i as int), a);
            assert(given.take(i + 1) =~= given.take(i as int).push(a));
            lemma_total();
            assert forall|x: int, y: int| 0 <= x < y < after.len() implies #[trigger] leq(
                after[x],
                after[y],
            ) by {
                let u = if x < k {
                    x
                } else {
                    x - 1
                };
                let v = if y < k {
                    y
                } else {
                    y - 1
                };
                if x != k && y != k {
                    assert(leq(before[u], before[v]));
                } else if x == k {
                    assert(attribute_lt(a, before[v]));
                    assert(leq(a, before[v]) || leq(before[v], a));
                    lemma_attribute_lt(a, before[v]);
                    if attribute_lt(before[v], a) {
                        lemma_attribute_lt_transitive(a, before[v], a);
                    }
                } else {
                    assert(leq(before[k - 1], a));
                    if x < k - 1 {
                        assert(leq(before[x], before[k - 1]));
                    }
                }
            }
        }
        i += 1;
    }
    proof {
        lemma_total();
        given.lemma_sort_by_ensures(by_name());
        assert(given.take(i as int) =~= given);
        lemma_sorted_unique(attributes_of(out@), in_order(given), by_name());
    }
    out
}

// ---------------------------------------------------------------------
// Documents
// ---------------------------------------------------------------------

/// Whether two elements differ at most in the order in which they, and the elements inside
/// them, give their attributes, and in their locations.
pub open spec fn alike(x: ElementModel, y: ElementModel) -> bool
    decreases x,
{
    &&& x.name == y.name
    &&& x.bindings == y.bindings
    &&& x.attributes.to_multiset() == y.attributes.to_multiset()
    &&& x.children.len() == y.children.len()
    &&& forall|i: int|
        0 <= i < x.children.len() ==> contents_alike(#[trigger] x.children[i], y.children[i])
}

/// Whether two children differ at most in the order of attributes, and in locations.
pub open spec fn contents_alike(x: ContentModel, y: ContentModel) -> bool
    decreases x,
{
    match (x, y) {
        (ContentModel::Text(a), ContentModel::Text(b)) => a == b,
        (ContentModel::Element(a), ContentModel::Element(b)) => alike(a, b),
        _ => false,
    }
}

/// Elements that differ only in the order of attributes are valid for the same content
/// models.
proof fn lemma_alike(
    content: PatternModel,
    x: ElementModel,
    y: ElementModel,
    defs: Defs,
    registry: RegistryModel,
)
    requires
        alike(x, y),
    ensures
        is_valid(content, x, defs, registry) == is_valid(content, y, defs, registry),
    decreases x, 1nat, 0nat,
{
    lemma_in_order(x.attributes, y.attributes);
    let all = in_order(x.attributes);
    match taken_attributes(content, all, all.len(), x.bindings, defs, registry) {
        Some(p) => {
            lemma_children_alike(p, x, y, x.children.len(), defs, registry);
        },
        None => {},
    }
}

/// Elements that differ only in the order of attributes are the same child.
proof fn lemma_same_child(
    x: ElementModel,
    y: ElementModel,
    defs: Defs,
    registry: RegistryModel,
)
    requires
        alike(x, y),
    ensures
        child_event(x, defs, registry) == child_event(y, defs, registry),
    decreases x, 2nat, 0nat,
{
    let a = child_event(x, defs, registry)->Element_0;
    let b = child_event(y, defs, registry)->Element_0;
    assert forall|class: NameModel, body: Seq<PatternModel>| #[trigger] a(class, body) == b(
        class,
        body,
    ) by {
        if body.len() > 0 {
            lemma_alike(body[0], x, y, defs, registry);
        }
    }
    assert(a =~= b);
}

/// The same is left after the first `n` children of such elements.
proof fn lemma_children_alike(
    p: PatternModel,
    x: ElementModel,
    y: ElementModel,
    n: nat,
    defs: Defs,
    registry: RegistryModel,
)
    requires
        alike(x, y),
        n <= x.children.len(),
    ensures
        taken_children(p, x.children, n, x.bindings, defs, registry) == taken_children(
            p,
            y.children,
            n,
            y.bindings,
            defs,
            registry,
        ),
    decreases x, 0nat, n,
{
    if n > 0 {
        lemma_children_alike(p, x, y, (n - 1) as nat, defs, registry);
        assert(contents_alike(x.children[n - 1], y.children[n - 1]));
        match (x.children[n - 1], y.children[n - 1]) {
            (ContentModel::Element(a), ContentModel::Element(b)) => {
                lemma_same_child(a, b, defs, registry);
            },
            _ => {},
        }
    }
}

/// The order of attributes does not matter: of two documents that differ only in the order in
/// which their elements give their attributes, there is a problem with both or with neither.
pub proof fn law_attribute_order_does_not_matter(
    schema: SchemaModel,
    registry: RegistryModel,
    x: ElementModel,
    y: ElementModel,
)
    requires
        alike(x, y),
    ensures
        document_errors(schema, registry, x).len() == 0 <==> document_errors(
            schema,
            registry,
            y,
        ).len() == 0,
{
    lemma_same_child(x, y, schema.definitions, registry);
    law_valid_documents_have_no_problems(schema, registry, x);
    law_valid_documents_have_no_problems(schema, registry, y);
}

} // verus!
