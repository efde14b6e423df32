//! The problems that validation reports: each is about an element of the document, at its path
//! and its location, and about what that element has.
use vstd::prelude::*;

use crate::datatypes::registry::RegistryModel;
use crate::derivative::{
    attribute_derivative, child_content, child_derivative, knows_attribute, text_derivative, Defs,
    MAX_DEPTH,
};
use crate::grammar::PatternModel;
use crate::simplify::SchemaModel;
use crate::text::{blank, Text};
use crate::validator::{
    after_attributes, after_children, child_event, document_errors, element_errors, is_valid,
    misfit_errors, missing_content, problems_met, unexpected_element, ContentModel, ElementModel,
    ErrorModel, KindModel, NameView,
};

verus! {

/// Whether a problem is about an element itself, which stands at a path: it is unexpected, one
/// of its attributes is or has a value that is not allowed, some of its text is, or something
/// is missing in it.
pub open spec fn about(e: ErrorModel, element: ElementModel, here: Seq<NameView>) -> bool {
    e.path == here && e.location == element.location && match e.kind {
        KindModel::UnexpectedElement(name) => name == element.name,
        KindModel::UnexpectedText => some_text(element.children),
        KindModel::UnexpectedAttribute(name) => some_attribute(element.attributes, name),
        KindModel::InvalidAttributeValue(name, value) => element.attributes.contains(
            (name, value),
        ),
        KindModel::MissingContent => true,
    }
}

/// Whether there is text among children.
pub open spec fn some_text(children: Seq<ContentModel>) -> bool {
    exists|i: int| 0 <= i < children.len() && (#[trigger] children[i]) is Text
}

/// Whether there is an attribute of a name.
pub open spec fn some_attribute(attributes: Seq<(NameView, Text)>, name: NameView) -> bool {
    exists|i: int| 0 <= i < attributes.len() && (#[trigger] attributes[i]).0 == name
}

/// Whether a problem is about an element or one inside it, where the names of those around it
/// are given.
pub open spec fn points_to(e: ErrorModel, element: ElementModel, path: Seq<NameView>) -> bool
    decreases element,
{
    about(e, element, path.push(element.name)) || some_points_to(
        e,
        element.children,
        path.push(element.name),
    )
}

/// Whether a problem is about one of the children that are elements, or one inside it.
pub open spec fn some_points_to(
    e: ErrorModel,
    children: Seq<ContentModel>,
    path: Seq<NameView>,
) -> bool
    decreases children,
{
    exists|i: int|
        0 <= i < children.len() && child_points_to(e, #[trigger] children[i], path)
}

/// Whether a problem is about a child that is an element, or one inside it.
pub open spec fn child_points_to(e: ErrorModel, child: ContentModel, path: Seq<NameView>) -> bool
    decreases child,
{
    match child {
        ContentModel::Element(element) => points_to(e, element, path),
        ContentModel::Text(_) => false,
    }
}

/// The problems with attributes are about the element.
proof fn lemma_attribute_problems(
    pattern: PatternModel,
    n: nat,
    element: ElementModel,
    here: Seq<NameView>,
    defs: Defs,
    registry: RegistryModel,
)
    requires
        n <= element.attributes.len(),
    ensures
        ({
            let errors = after_attributes(
                pattern,
                element.attributes,
                n,
                element,
                here,
                defs,
                registry,
            ).1;
            forall|i: int| 0 <= i < errors.len() ==> about(#[trigger] errors[i], element, here)
        }),
    decreases n,
{
    if n > 0 {
        lemma_attribute_problems(pattern, (n - 1) as nat, element, here, defs, registry);
        let (name, value) = element.attributes[n - 1];
        assert(element.attributes[n - 1].0 == name);
        assert(some_attribute(element.attributes, name));
        assert(element.attributes.contains((name, value)));
        let before = after_attributes(
            pattern,
            element.attributes,
            (n - 1) as nat,
            element,
            here,
            defs,
            registry,
        ).1;
        let errors = after_attributes(
            pattern,
            element.attributes,
            n,
            element,
            here,
            defs,
            registry,
        ).1;
        assert forall|i: int| 0 <= i < errors.len() implies about(
            #[trigger] errors[i],
            element,
            here,
        ) by {
            if i < before.len() {
                assert(errors[i] == before[i]);
            }
        }
    }
}

/// The problems with children are about the element or about them.
proof fn lemma_child_problems(
    pattern: PatternModel,
    children: Seq<ContentModel>,
    n: nat,
    element: ElementModel,
    here: Seq<NameView>,
    defs: Defs,
    registry: RegistryModel,
)
    requires
        n <= children.len(),
        children == element.children,
    ensures
        ({
            let errors = after_children(
                pattern,
                children,
                n,
                element.location,
                element.bindings,
                here,
                defs,
                registry,
            ).1;
            forall|i: int|
                0 <= i < errors.len() ==> about(#[trigger] errors[i], element, here)
                    || some_points_to(errors[i], children, here)
        }),
    decreases children, n,
{
    if n > 0 {
        lemma_child_problems(pattern, children, (n - 1) as nat, element, here, defs, registry);
        let (p, errors) = after_children(
            pattern,
            children,
            (n - 1) as nat,
            element.location,
            element.bindings,
            here,
            defs,
            registry,
        );
        let depth = MAX_DEPTH as nat;
        match children[n - 1] {
            ContentModel::Text(text) => {
                assert(some_text(children));
            },
            ContentModel::Element(child) => {
                match child_content(p, child.name, defs, depth) {
                    Some(content) => {
                        lemma_misfits(content, child, here, defs, registry);
                        let more = misfit_errors(content, child, here, defs, registry);
                        assert forall|i: int| 0 <= i < more.len() implies some_points_to(
                            #[trigger] more[i],
                            children,
                            here,
                        ) by {
                            assert(child_points_to(more[i], children[n - 1], here));
                        }
                        let all = errors + more;
                        assert forall|i: int| 0 <= i < all.len() implies about(
                            #[trigger] all[i],
                            element,
                            here,
                        ) || some_points_to(all[i], children, here) by {
                            if i < errors.len() {
                                assert(all[i] == errors[i]);
                            } else {
                                assert(all[i] == more[i - errors.len()]);
                            }
                        }
                    },
                    None => {
                        let e = unexpected_element(child, here);
                        assert(points_to(e, child, here));
                        assert(child_points_to(e, children[n - 1], here));
                        assert(some_points_to(e, children, here));
                    },
                }
            },
        }
    }
}

/// The problems met in reading an element are about it or what is inside it.
proof fn lemma_met(
    content: PatternModel,
    element: ElementModel,
    path: Seq<NameView>,
    defs: Defs,
    registry: RegistryModel,
)
    ensures
        ({
            let errors = problems_met(content, element, path, defs, registry);
            forall|i: int| 0 <= i < errors.len() ==> points_to(#[trigger] errors[i], element, path)
        }),
    decreases element, 0nat,
{
    let here = path.push(element.name);
    let (p, first) = after_attributes(
        content,
        element.attributes,
        element.attributes.len(),
        element,
        here,
        defs,
        registry,
    );
    let (q, second) = after_children(
        p,
        element.children,
        element.children.len(),
        element.location,
        element.bindings,
        here,
        defs,
        registry,
    );
    lemma_attribute_problems(
        content,
        element.attributes.len(),
        element,
        here,
        defs,
        registry,
    );
    lemma_child_problems(
        p,
        element.children,
        element.children.len(),
        element,
        here,
        defs,
        registry,
    );
    let both = first + second;
    assert forall|i: int| 0 <= i < both.len() implies points_to(
        #[trigger] both[i],
        element,
        path,
    ) by {
        if i < first.len() {
            assert(both[i] == first[i]);
        } else {
            assert(both[i] == second[i - first.len()]);
        }
    }
    assert(points_to(missing_content(element, path), element, path));
}

/// The problems of an element that fits no content model are about it or what is inside it.
proof fn lemma_misfits(
    content: PatternModel,
    element: ElementModel,
    path: Seq<NameView>,
    defs: Defs,
    registry: RegistryModel,
)
    ensures
        ({
            let errors = misfit_errors(content, element, path, defs, registry);
            forall|i: int| 0 <= i < errors.len() ==> points_to(#[trigger] errors[i], element, path)
        }),
    decreases element, 1nat,
{
    lemma_met(content, element, path, defs, registry);
    assert(points_to(missing_content(element, path), element, path));
    assert(points_to(unexpected_element(element, path), element, path));
    let errors = element_errors(content, element, path, defs, registry);
    let met = problems_met(content, element, path, defs, registry);
    assert(errors.len() == 0 || errors == met || errors == seq![missing_content(element, path)]);
}

/// Every problem of a document is about an element of it: its path is the names of the elements
/// around it and its own, its location is that of the element, and it is about what the element
/// has.
pub proof fn law_problems_point_into_the_document(
    schema: SchemaModel,
    registry: RegistryModel,
    root: ElementModel,
)
    ensures
        ({
            let errors = document_errors(schema, registry, root);
            forall|i: int|
                0 <= i < errors.len() ==> points_to(#[trigger] errors[i], root, Seq::empty())
        }),
{
    let none = Seq::<NameView>::empty();
    assert(points_to(unexpected_element(root, none), root, none));
    match child_content(schema.start, root.name, schema.definitions, MAX_DEPTH as nat) {
        Some(content) => {
            lemma_misfits(content, root, none, schema.definitions, registry);
        },
        None => {},
    }
}

/// What is wrong with the first attribute comes first: that its name is not one that the
/// content knows, or that its value is not allowed.
pub proof fn law_the_first_bad_attribute_is_reported_first(
    content: PatternModel,
    element: ElementModel,
    path: Seq<NameView>,
    defs: Defs,
    registry: RegistryModel,
)
    requires
        element.attributes.len() > 0,
        !is_valid(content, element, defs, registry),
    ensures
        ({
            let (name, value) = element.attributes[0];
            let errors = element_errors(content, element, path, defs, registry);
            let depth = MAX_DEPTH as nat;
            let here = path.push(element.name);
            let location = element.location;
            &&& !knows_attribute(content, name, defs, depth) ==> errors.len() > 0 && errors[0] == (
            ErrorModel { kind: KindModel::UnexpectedAttribute(name), path: here, location })
            &&& knows_attribute(content, name, defs, depth) && attribute_derivative(
                content,
                name,
                value,
                defs,
                registry,
                element.bindings,
                depth,
            ) is NotAllowed ==> errors.len() > 0 && errors[0] == (ErrorModel {
                kind: KindModel::InvalidAttributeValue(name, value),
                path: here,
                location,
            })
        }),
{
    let here = path.push(element.name);
    let all = element.attributes;
    assert(after_attributes(content, all, 0, element, here, defs, registry) == (
        content,
        Seq::<ErrorModel>::empty(),
    ));
    let first = after_attributes(content, all, 1, element, here, defs, registry).1;
    if first.len() > 0 {
        lemma_attribute_problems_stay(content, 1, all.len(), element, here, defs, registry);
        let errors = after_attributes(content, all, all.len(), element, here, defs, registry).1;
        assert(errors.len() > 0 && errors[0] == first[0]);
        let met = problems_met(content, element, path, defs, registry);
        assert(met[0] == errors[0]);
    }
}

/// Problems met with the first attributes stay in front.
proof fn lemma_attribute_problems_stay(
    pattern: PatternModel,
    k: nat,
    n: nat,
    element: ElementModel,
    here: Seq<NameView>,
    defs: Defs,
    registry: RegistryModel,
)
    requires
        k <= n <= element.attributes.len(),
    ensures
        ({
            let all = element.attributes;
            let first = after_attributes(pattern, all, k, element, here, defs, registry).1;
            let errors = after_attributes(pattern, all, n, element, here, defs, registry).1;
            first.len() <= errors.len() && forall|i: int|
                0 <= i < first.len() ==> #[trigger] errors[i] == first[i]
        }),
    decreases n,
{
    if k < n {
        lemma_attribute_problems_stay(pattern, k, (n - 1) as nat, element, here, defs, registry);
    }
}

/// Where an element without attributes is not valid, what is wrong with its first child comes
/// first: that an element is not expected there, or that text is not. Where it has no children,
/// something is missing.
pub proof fn law_the_first_bad_child_is_reported_first(
    content: PatternModel,
    element: ElementModel,
    path: Seq<NameView>,
    defs: Defs,
    registry: RegistryModel,
)
    requires
        element.attributes.len() == 0,
        !is_valid(content, element, defs, registry),
    ensures
        ({
            let errors = element_errors(content, element, path, defs, registry);
            let depth = MAX_DEPTH as nat;
            let here = path.push(element.name);
            let location = element.location;
            &&& errors.len() > 0
            &&& element.children.len() == 0 ==> errors == seq![
                ErrorModel { kind: KindModel::MissingContent, path: here, location },
            ]
            &&& element.children.len() > 0 ==> match element.children[0] {
                ContentModel::Text(text) => text_derivative(
                    content,
                    text,
                    defs,
                    registry,
                    element.bindings,
                    depth,
                ) is NotAllowed && !blank(text) ==> errors[0] == (ErrorModel {
                    kind: KindModel::UnexpectedText,
                    path: here,
                    location,
                }),
                ContentModel::Element(child) => child_derivative(
                    content,
                    child_event(child, defs, registry),
                    defs,
                    depth,
                ) is NotAllowed && child_content(content, child.name, defs, depth) is None
                    ==> errors[0] == (ErrorModel {
                    kind: KindModel::UnexpectedElement(child.name),
                    path: here.push(child.name),
                    location: child.location,
                }),
            }
        }),
{
    let here = path.push(element.name);
    let all = element.children;
    let none = Seq::<ErrorModel>::empty();
    assert(after_attributes(content, element.attributes, 0, element, here, defs, registry) == (
        content,
        none,
    ));
    assert(after_children(
        content,
        all,
        0,
        element.location,
        element.bindings,
        here,
        defs,
        registry,
    ) == (content, none));
    let met = problems_met(content, element, path, defs, registry);
    if all.len() > 0 {
        let first = after_children(
            content,
            all,
            1,
            element.location,
            element.bindings,
            here,
            defs,
            registry,
        ).1;
        if first.len() > 0 {
            lemma_child_problems_stay(content, 1, all.len(), element, here, defs, registry);
            let errors = after_children(
                content,
                all,
                all.len(),
                element.location,
                element.bindings,
                here,
                defs,
                registry,
            ).1;
            assert(errors.len() > 0 && errors[0] == first[0]);
            assert(none + errors =~= errors);
            assert(met[0] == errors[0]);
        }
    } else {
        assert(none + none =~= none);
        assert(none.push(missing_content(element, path)) =~= seq![
            missing_content(element, path),
        ]);
    }
}

/// Problems met with the first children stay in front.
proof fn lemma_child_problems_stay(
    pattern: PatternModel,
    k: nat,
    n: nat,
    element: ElementModel,
    here: Seq<NameView>,
    defs: Defs,
    registry: RegistryModel,
)
    requires
        k <= n <= element.children.len(),
    ensures
        ({
            let all = element.children;
            let first = after_children(
                pattern,
                all,
                k,
                element.location,
                element.bindings,
                here,
                defs,
                registry,
            ).1;
            let errors = after_children(
                pattern,
                all,
                n,
                element.location,
                element.bindings,
                here,
                defs,
                registry,
            ).1;
            first.len() <= errors.len() && forall|i: int|
                0 <= i < first.len() ==> #[trigger] errors[i] == first[i]
        }),
    decreases n,
{
    if k < n {
        lemma_child_problems_stay(pattern, k, (n - 1) as nat, element, here, defs, registry);
    }
}

} // verus!
