//! Name classes: which expanded names they hold, which of them overlap, and the
//! restrictions on how they may be built.
use vstd::prelude::*;

use crate::grammar::{names_of, ContextModel, NameClass, NameModel};
use crate::simplify::{verdict, SchemaError};
use crate::text::{
    concat3, copy_or_empty, from_chars, holds, opt_text, or_empty, push_all, same, texts, to_chars,
    Text,
};
use vstd::slice::slice_subrange;

verus! {

/// The namespace of `xmlns` attributes, without the trailing slash that it also
/// occurs with.
pub const XMLNS_NAMESPACE: &'static str = "http://www.w3.org/2000/xmlns";

/// Whether two optional namespaces are the same: none and the empty one both denote
/// "no namespace".
pub open spec fn same_namespace(a: Option<Text>, b: Option<Text>) -> bool {
    or_empty(a) == or_empty(b)
}

/// Whether a name class holds the name `local` of a namespace.
pub open spec fn holds_name(class: NameModel, namespace: Option<Text>, local: Text) -> bool
    decreases class,
{
    match class {
        NameModel::Name { lexical, namespace: ns, context } => same_namespace(ns, namespace)
            && lexical == local,
        NameModel::Any { except, context } => !some_holds(except, namespace, local),
        NameModel::Namespace { namespace: ns, except, context } => same_namespace(ns, namespace)
            && !some_holds(except, namespace, local),
        NameModel::Choice(options) => some_holds(options, namespace, local),
    }
}

/// Whether some name class holds the name `local` of a namespace.
pub open spec fn some_holds(
    classes: Seq<NameModel>,
    namespace: Option<Text>,
    local: Text,
) -> bool
    decreases classes,
{
    exists|i: int|
        0 <= i < classes.len() && holds_name(#[trigger] classes[i], namespace, local)
}

/// Whether an `anyName` occurs, other than inside another one.
pub open spec fn contains_any(class: NameModel) -> bool
    decreases class,
{
    match class {
        NameModel::Any { except, context } => true,
        NameModel::Name { lexical, namespace, context } => false,
        NameModel::Namespace { namespace, except, context } => some_contain_any(except),
        NameModel::Choice(options) => some_contain_any(options),
    }
}

/// Whether an `anyName` occurs in some of the name classes.
pub open spec fn some_contain_any(classes: Seq<NameModel>) -> bool
    decreases classes,
{
    exists|i: int| 0 <= i < classes.len() && contains_any(#[trigger] classes[i])
}

/// Whether an `nsName` occurs, other than inside another one.
pub open spec fn contains_ns(class: NameModel) -> bool
    decreases class,
{
    match class {
        NameModel::Namespace { namespace, except, context } => true,
        NameModel::Name { lexical, namespace, context } => false,
        NameModel::Any { except, context } => some_contain_ns(except),
        NameModel::Choice(options) => some_contain_ns(options),
    }
}

/// Whether an `nsName` occurs in some of the name classes.
pub open spec fn some_contain_ns(classes: Seq<NameModel>) -> bool
    decreases classes,
{
    exists|i: int| 0 <= i < classes.len() && contains_ns(#[trigger] classes[i])
}

/// Whether some alternative is an `anyName` or `nsName`.
pub open spec fn infinite_names(class: NameModel) -> bool
    decreases class,
{
    match class {
        NameModel::Name { lexical, namespace, context } => false,
        NameModel::Any { except, context } => true,
        NameModel::Namespace { namespace, except, context } => true,
        NameModel::Choice(options) => some_infinite(options),
    }
}

/// Whether some of the name classes has an `anyName` or `nsName` as an alternative.
pub open spec fn some_infinite(classes: Seq<NameModel>) -> bool
    decreases classes,
{
    exists|i: int| 0 <= i < classes.len() && infinite_names(#[trigger] classes[i])
}

/// Whether an expanded name is in both of two name classes.
pub open spec fn common_name(
    a: NameModel,
    b: NameModel,
    namespace: Option<Text>,
    local: Text,
) -> bool {
    holds_name(a, namespace, local) && holds_name(b, namespace, local)
}

/// Whether two name classes have at least one expanded name in common.
pub open spec fn overlap(a: NameModel, b: NameModel) -> bool {
    exists|namespace: Option<Text>, local: Text| #[trigger] common_name(a, b, namespace, local)
}

/// Whether every namespace and every local name that a name class mentions is listed.
pub open spec fn mentions_only(
    class: NameModel,
    namespaces: Seq<Text>,
    locals: Seq<Text>,
) -> bool
    decreases class,
{
    match class {
        NameModel::Name { lexical, namespace, context } => namespaces.contains(
            or_empty(namespace),
        ) && locals.contains(lexical),
        NameModel::Any { except, context } => all_mention_only(except, namespaces, locals),
        NameModel::Namespace { namespace, except, context } => namespaces.contains(
            or_empty(namespace),
        ) && all_mention_only(except, namespaces, locals),
        NameModel::Choice(options) => all_mention_only(options, namespaces, locals),
    }
}

/// Whether every namespace and every local name that name classes mention is listed.
pub open spec fn all_mention_only(
    classes: Seq<NameModel>,
    namespaces: Seq<Text>,
    locals: Seq<Text>,
) -> bool
    decreases classes,
{
    forall|i: int|
        0 <= i < classes.len() ==> mentions_only(#[trigger] classes[i], namespaces, locals)
}

/// The text without its trailing slashes.
pub open spec fn trim_slashes(t: Text) -> Text
    decreases t.len(),
{
    if t.len() > 0 && t.last() == '/' {
        trim_slashes(t.drop_last())
    } else {
        t
    }
}

/// Whether a namespace is that of `xmlns` attributes.
pub open spec fn xmlns_namespace(namespace: Option<Text>) -> bool {
    namespace is Some && trim_slashes(namespace->0) == XMLNS_NAMESPACE@
}

/// What is wrong with the exceptions inside a name class: an `anyName`'s must not
/// contain `anyName`, and an `nsName`'s neither `nsName` nor `anyName`.
pub open spec fn name_problem(class: NameModel) -> Option<Text>
    decreases class, 0nat,
{
    match class {
        NameModel::Any { except, context } => any_except_problem(except, except.len()),
        NameModel::Namespace { namespace, except, context } => ns_except_problem(
            except,
            except.len(),
        ),
        NameModel::Name { lexical, namespace, context } => None,
        NameModel::Choice(options) => names_problem(options, options.len()),
    }
}

/// What is wrong with the first `n` exceptions of an `anyName`.
pub open spec fn any_except_problem(except: Seq<NameModel>, n: nat) -> Option<Text>
    decreases except, n,
{
    if n == 0 || n > except.len() {
        None
    } else {
        match any_except_problem(except, (n - 1) as nat) {
            Some(problem) => Some(problem),
            None => if contains_any(except[n - 1]) {
                Some("RELAX NG §4.16: an anyName's except must not contain anyName"@)
            } else {
                name_problem(except[n - 1])
            },
        }
    }
}

/// What is wrong with the first `n` exceptions of an `nsName`.
pub open spec fn ns_except_problem(except: Seq<NameModel>, n: nat) -> Option<Text>
    decreases except, n,
{
    if n == 0 || n > except.len() {
        None
    } else {
        match ns_except_problem(except, (n - 1) as nat) {
            Some(problem) => Some(problem),
            None => if contains_any(except[n - 1]) || contains_ns(except[n - 1]) {
                Some("RELAX NG §4.16: an nsName's except must not contain nsName or anyName"@)
            } else {
                name_problem(except[n - 1])
            },
        }
    }
}

/// What is wrong with the first `n` name classes.
pub open spec fn names_problem(classes: Seq<NameModel>, n: nat) -> Option<Text>
    decreases classes, n,
{
    if n == 0 || n > classes.len() {
        None
    } else {
        match names_problem(classes, (n - 1) as nat) {
            Some(problem) => Some(problem),
            None => name_problem(classes[n - 1]),
        }
    }
}

/// The complaint about an attribute in the namespace of `xmlns`.
pub open spec fn xmlns_complaint() -> Text {
    "RELAX NG §4.16: an attribute name class must not use the "@ + XMLNS_NAMESPACE@
        + " namespace"@
}

/// What is wrong with a name class as that of an attribute: neither `xmlns` in no
/// namespace nor a name of the `xmlns` namespace is an attribute.
pub open spec fn attribute_name_problem(class: NameModel) -> Option<Text>
    decreases class, 0nat,
{
    match class {
        NameModel::Name { lexical, namespace, context } => if same_namespace(namespace, None)
            && lexical == "xmlns"@ {
            Some(
                "RELAX NG §4.16: an attribute name class must not match `xmlns` in no namespace"@,
            )
        } else if xmlns_namespace(namespace) {
            Some(xmlns_complaint())
        } else {
            None
        },
        NameModel::Namespace { namespace, except, context } => if xmlns_namespace(namespace) {
            Some(xmlns_complaint())
        } else {
            attribute_names_problem(except, except.len())
        },
        NameModel::Any { except, context } => attribute_names_problem(except, except.len()),
        NameModel::Choice(options) => attribute_names_problem(options, options.len()),
    }
}

/// What is wrong with the first `n` name classes as those of attributes.
pub open spec fn attribute_names_problem(classes: Seq<NameModel>, n: nat) -> Option<Text>
    decreases classes, n,
{
    if n == 0 || n > classes.len() {
        None
    } else {
        match attribute_names_problem(classes, (n - 1) as nat) {
            Some(problem) => Some(problem),
            None => attribute_name_problem(classes[n - 1]),
        }
    }
}

/// Whether two optional namespaces are the same.
pub fn ns_eq(a: &Option<String>, b: &Option<String>) -> (r: bool)
    ensures
        r == same_namespace(opt_text(*a), opt_text(*b)),
{
    copy_or_empty(a) == copy_or_empty(b)
}

/// Whether `class` holds the given expanded name.
pub fn name_class_matches(class: &NameClass, namespace: &Option<String>, local: &str) -> (r: bool)
    ensures
        r == holds_name(class@, opt_text(*namespace), local@),
    decreases class,
{
    proof {
        class.lemma_model();
    }
    match class {
        NameClass::Name { lexical, namespace: ns, context } => ns_eq(ns, namespace) && same(
            lexical.as_str(),
            local,
        ),
        NameClass::Any { except, context } => !any_matches(except, namespace, local),
        NameClass::Namespace { namespace: ns, except, context } => ns_eq(ns, namespace)
            && !any_matches(except, namespace, local),
        NameClass::Choice(options) => any_matches(options, namespace, local),
    }
}

/// Whether any of the name classes holds the given expanded name.
fn any_matches(classes: &Vec<NameClass>, namespace: &Option<String>, local: &str) -> (r: bool)
    ensures
        r == some_holds(names_of(classes@), opt_text(*namespace), local@),
    decreases classes,
{
    let mut i: usize = 0;
    while i < classes.len()
        invariant
            i <= classes.len(),
            forall|j: int|
                0 <= j < i ==> !holds_name(
                    #[trigger] names_of(classes@)[j],
                    opt_text(*namespace),
                    local@,
                ),
        decreases classes.len() - i,
    {
        if name_class_matches(&classes[i], namespace, local) {
            assert(holds_name(names_of(classes@)[i as int], opt_text(*namespace), local@));
            return true;
        }
        i += 1;
    }
    false
}

/// Whether an `anyName` occurs.
pub fn name_class_contains_any(class: &NameClass) -> (r: bool)
    ensures
        r == contains_any(class@),
    decreases class,
{
    proof {
        class.lemma_model();
    }
    match class {
        NameClass::Any { except, context } => true,
        NameClass::Name { lexical, namespace, context } => false,
        NameClass::Namespace { namespace, except, context } => some_contains_any(except),
        NameClass::Choice(options) => some_contains_any(options),
    }
}

/// Whether an `anyName` occurs in some of the name classes.
fn some_contains_any(classes: &Vec<NameClass>) -> (r: bool)
    ensures
        r == some_contain_any(names_of(classes@)),
    decreases classes,
{
    let mut i: usize = 0;
    while i < classes.len()
        invariant
            i <= classes.len(),
            forall|j: int| 0 <= j < i ==> !contains_any(#[trigger] names_of(classes@)[j]),
        decreases classes.len() - i,
    {
        if name_class_contains_any(&classes[i]) {
            assert(contains_any(names_of(classes@)[i as int]));
            return true;
        }
        i += 1;
    }
    false
}

/// Whether an `nsName` occurs.
pub fn name_class_contains_namespace(class: &NameClass) -> (r: bool)
    ensures
        r == contains_ns(class@),
    decreases class,
{
    proof {
        class.lemma_model();
    }
    match class {
        NameClass::Namespace { namespace, except, context } => true,
        NameClass::Name { lexical, namespace, context } => false,
        NameClass::Any { except, context } => some_contains_namespace(except),
        NameClass::Choice(options) => some_contains_namespace(options),
    }
}

/// Whether an `nsName` occurs in some of the name classes.
fn some_contains_namespace(classes: &Vec<NameClass>) -> (r: bool)
    ensures
        r == some_contain_ns(names_of(classes@)),
    decreases classes,
{
    let mut i: usize = 0;
    while i < classes.len()
        invariant
            i <= classes.len(),
            forall|j: int| 0 <= j < i ==> !contains_ns(#[trigger] names_of(classes@)[j]),
        decreases classes.len() - i,
    {
        if name_class_contains_namespace(&classes[i]) {
            assert(contains_ns(names_of(classes@)[i as int]));
            return true;
        }
        i += 1;
    }
    false
}

/// Whether `class`, through any `choice` branch, is an `anyName` or `nsName`, that is,
/// can hold more than one distinct name.
pub fn name_class_has_infinite_names(class: &NameClass) -> (r: bool)
    ensures
        r == infinite_names(class@),
    decreases class,
{
    proof {
        class.lemma_model();
    }
    match class {
        NameClass::Name { lexical, namespace, context } => false,
        NameClass::Any { except, context } => true,
        NameClass::Namespace { namespace, except, context } => true,
        NameClass::Choice(options) => some_have_infinite_names(options),
    }
}

/// Whether some of the name classes can hold more than one distinct name.
fn some_have_infinite_names(classes: &Vec<NameClass>) -> (r: bool)
    ensures
        r == some_infinite(names_of(classes@)),
    decreases classes,
{
    let mut i: usize = 0;
    while i < classes.len()
        invariant
            i <= classes.len(),
            forall|j: int| 0 <= j < i ==> !infinite_names(#[trigger] names_of(classes@)[j]),
        decreases classes.len() - i,
    {
        if name_class_has_infinite_names(&classes[i]) {
            assert(infinite_names(names_of(classes@)[i as int]));
            return true;
        }
        i += 1;
    }
    false
}

/// More names listed do no harm.
proof fn lemma_mentions_more(
    class: NameModel,
    namespaces: Seq<Text>,
    locals: Seq<Text>,
    more_namespaces: Seq<Text>,
    more_locals: Seq<Text>,
)
    requires
        mentions_only(class, namespaces, locals),
        forall|t: Text| #[trigger] namespaces.contains(t) ==> more_namespaces.contains(t),
        forall|t: Text| #[trigger] locals.contains(t) ==> more_locals.contains(t),
    ensures
        mentions_only(class, more_namespaces, more_locals),
    decreases class,
{
    match class {
        NameModel::Name { lexical, namespace, context } => {},
        NameModel::Any { except, context } => {
            lemma_all_mention_more(except, namespaces, locals, more_namespaces, more_locals);
        },
        NameModel::Namespace { namespace, except, context } => {
            lemma_all_mention_more(except, namespaces, locals, more_namespaces, more_locals);
        },
        NameModel::Choice(options) => {
            lemma_all_mention_more(options, namespaces, locals, more_namespaces, more_locals);
        },
    }
}

/// More names listed do no harm.
proof fn lemma_all_mention_more(
    classes: Seq<NameModel>,
    namespaces: Seq<Text>,
    locals: Seq<Text>,
    more_namespaces: Seq<Text>,
    more_locals: Seq<Text>,
)
    requires
        all_mention_only(classes, namespaces, locals),
        forall|t: Text| #[trigger] namespaces.contains(t) ==> more_namespaces.contains(t),
        forall|t: Text| #[trigger] locals.contains(t) ==> more_locals.contains(t),
    ensures
        all_mention_only(classes, more_namespaces, more_locals),
    decreases classes,
{
    assert forall|i: int| 0 <= i < classes.len() implies mentions_only(
        #[trigger] classes[i],
        more_namespaces,
        more_locals,
    ) by {
        lemma_mentions_more(classes[i], namespaces, locals, more_namespaces, more_locals);
    }
}

/// A name class cannot tell two names apart whose parts are the same, or are both ones
/// that it does not mention.
proof fn lemma_indistinct(
    class: NameModel,
    namespaces: Seq<Text>,
    locals: Seq<Text>,
    namespace: Option<Text>,
    local: Text,
    other_namespace: Option<Text>,
    other_local: Text,
)
    requires
        mentions_only(class, namespaces, locals),
        same_namespace(namespace, other_namespace) || (!namespaces.contains(or_empty(namespace))
            && !namespaces.contains(or_empty(other_namespace))),
        local == other_local || (!locals.contains(local) && !locals.contains(other_local)),
    ensures
        holds_name(class, namespace, local) == holds_name(class, other_namespace, other_local),
    decreases class,
{
    match class {
        NameModel::Name { lexical, namespace: ns, context } => {},
        NameModel::Any { except, context } => {
            lemma_some_indistinct(
                except,
                namespaces,
                locals,
                namespace,
                local,
                other_namespace,
                other_local,
            );
        },
        NameModel::Namespace { namespace: ns, except, context } => {
            lemma_some_indistinct(
                except,
                namespaces,
                locals,
                namespace,
                local,
                other_namespace,
                other_local,
            );
        },
        NameModel::Choice(options) => {
            lemma_some_indistinct(
                options,
                namespaces,
                locals,
                namespace,
                local,
                other_namespace,
                other_local,
            );
        },
    }
}

/// Nor can several name classes.
proof fn lemma_some_indistinct(
    classes: Seq<NameModel>,
    namespaces: Seq<Text>,
    locals: Seq<Text>,
    namespace: Option<Text>,
    local: Text,
    other_namespace: Option<Text>,
    other_local: Text,
)
    requires
        all_mention_only(classes, namespaces, locals),
        same_namespace(namespace, other_namespace) || (!namespaces.contains(or_empty(namespace))
            && !namespaces.contains(or_empty(other_namespace))),
        local == other_local || (!locals.contains(local) && !locals.contains(other_local)),
    ensures
        some_holds(classes, namespace, local) == some_holds(classes, other_namespace, other_local),
    decreases classes,
{
    assert forall|i: int| 0 <= i < classes.len() implies holds_name(
        #[trigger] classes[i],
        namespace,
        local,
    ) == holds_name(classes[i], other_namespace, other_local) by {
        lemma_indistinct(
            classes[i],
            namespaces,
            locals,
            namespace,
            local,
            other_namespace,
            other_local,
        );
    }
}

/// Adds the namespaces and the local names that a name class mentions.
fn collect_mentioned(class: &NameClass, namespaces: &mut Vec<String>, locals: &mut Vec<String>)
    ensures
        mentions_only(class@, texts(final(namespaces)@), texts(final(locals)@)),
        forall|t: Text| #[trigger]
            texts(old(namespaces)@).contains(t) ==> texts(final(namespaces)@).contains(t),
        forall|t: Text| #[trigger]
            texts(old(locals)@).contains(t) ==> texts(final(locals)@).contains(t),
    decreases class,
{
    proof {
        class.lemma_model();
    }
    match class {
        NameClass::Name { lexical, namespace, context } => {
            list_text(namespaces, copy_or_empty(namespace));
            list_text(locals, lexical.clone());
        },
        NameClass::Any { except, context } => {
            collect_all_mentioned(except, namespaces, locals);
        },
        NameClass::Namespace { namespace, except, context } => {
            list_text(namespaces, copy_or_empty(namespace));
            collect_all_mentioned(except, namespaces, locals);
        },
        NameClass::Choice(options) => {
            collect_all_mentioned(options, namespaces, locals);
        },
    }
}

/// Adds the namespaces and the local names that name classes mention.
fn collect_all_mentioned(
    classes: &Vec<NameClass>,
    namespaces: &mut Vec<String>,
    locals: &mut Vec<String>,
)
    ensures
        all_mention_only(names_of(classes@), texts(final(namespaces)@), texts(final(locals)@)),
        forall|t: Text| #[trigger]
            texts(old(namespaces)@).contains(t) ==> texts(final(namespaces)@).contains(t),
        forall|t: Text| #[trigger]
            texts(old(locals)@).contains(t) ==> texts(final(locals)@).contains(t),
    decreases classes,
{
    let ghost models = names_of(classes@);
    let ghost first_namespaces = texts(namespaces@);
    let ghost first_locals = texts(locals@);
    let mut i: usize = 0;
    while i < classes.len()
        invariant
            i <= classes.len(),
            models == names_of(classes@),
            forall|j: int|
                0 <= j < i ==> mentions_only(
                    #[trigger] models[j],
                    texts(namespaces@),
                    texts(locals@),
                ),
            forall|t: Text| #[trigger]
                first_namespaces.contains(t) ==> texts(namespaces@).contains(t),
            forall|t: Text| #[trigger] first_locals.contains(t) ==> texts(locals@).contains(t),
        decreases classes.len() - i,
    {
        let ghost before_namespaces = texts(namespaces@);
        let ghost before_locals = texts(locals@);
        collect_mentioned(&classes[i], namespaces, locals);
        proof {
            assert(mentions_only(models[i as int], texts(namespaces@), texts(locals@)));
            assert forall|j: int| 0 <= j < i implies mentions_only(
                #[trigger] models[j],
                texts(namespaces@),
                texts(locals@),
            ) by {
                lemma_mentions_more(
                    models[j],
                    before_namespaces,
                    before_locals,
                    texts(namespaces@),
                    texts(locals@),
                );
            }
        }
        i += 1;
    }
}

/// Adds a text to a list, where it is not there yet.
fn list_text(list: &mut Vec<String>, text: String)
    ensures
        texts(final(list)@).contains(text@),
        forall|t: Text| #[trigger]
            texts(old(list)@).contains(t) ==> texts(final(list)@).contains(t),
{
    if holds(list, text.as_str()) {
        return;
    }
    let ghost before = texts(list@);
    let ghost added = text@;
    list.push(text);
    proof {
        let after = texts(list@);
        assert(after[after.len() - 1] == added);
        assert forall|t: Text| #[trigger] before.contains(t) implies after.contains(t) by {
            let k = choose|k: int| 0 <= k < before.len() && before[k] == t;
            assert(after[k] == t);
        }
    }
}

/// A text that is not listed: one longer than each that is.
fn unlisted_text(list: &Vec<String>) -> (r: String)
    ensures
        !texts(list@).contains(r@),
{
    let mut out: Vec<char> = Vec::new();
    let mut i: usize = 0;
    while i < list.len()
        invariant
            i <= list.len(),
            forall|j: int| 0 <= j < i ==> (#[trigger] texts(list@)[j]).len() <= out@.len(),
        decreases list.len() - i,
    {
        let chars = to_chars(list[i].as_str());
        push_all(&mut out, chars.as_slice());
        assert(texts(list@)[i as int] == chars@);
        i += 1;
    }
    out.push('x');
    from_chars(out.as_slice())
}

/// Whether two name classes have a name in common, by trying each combination of the
/// namespaces and local names that they mention, and one of each that they do not.
fn some_mentioned_in_common(a: &NameClass, b: &NameClass) -> (r: bool)
    ensures
        r == overlap(a@, b@),
{
    let mut namespaces: Vec<String> = Vec::new();
    let mut locals: Vec<String> = Vec::new();
    collect_mentioned(a, &mut namespaces, &mut locals);
    let ghost n = texts(namespaces@);
    let ghost l = texts(locals@);
    collect_mentioned(b, &mut namespaces, &mut locals);
    let ghost known_namespaces = texts(namespaces@);
    let ghost known_locals = texts(locals@);
    proof {
        lemma_mentions_more(a@, n, l, known_namespaces, known_locals);
    }
    let namespace = unlisted_text(&namespaces);
    let local = unlisted_text(&locals);
    namespaces.push(namespace);
    locals.push(local);
    let ghost ns = texts(namespaces@);
    let ghost ls = texts(locals@);
    let mut i: usize = 0;
    while i < namespaces.len()
        invariant
            i <= namespaces.len(),
            ns == texts(namespaces@),
            ls == texts(locals@),
            forall|j: int, k: int|
                0 <= j < i && 0 <= k < ls.len() ==> !common_name(
                    a@,
                    b@,
                    Some(#[trigger] ns[j]),
                    #[trigger] ls[k],
                ),
        decreases namespaces.len() - i,
    {
        let candidate = Some(namespaces[i].clone());
        let mut j: usize = 0;
        while j < locals.len()
            invariant
                i < namespaces.len(),
                j <= locals.len(),
                ns == texts(namespaces@),
                ls == texts(locals@),
                opt_text(candidate) == Some(ns[i as int]),
                forall|k: int|
                    0 <= k < j ==> !common_name(a@, b@, Some(ns[i as int]), #[trigger] ls[k]),
            decreases locals.len() - j,
        {
            if name_class_matches(a, &candidate, locals[j].as_str()) && name_class_matches(
                b,
                &candidate,
                locals[j].as_str(),
            ) {
                assert(common_name(a@, b@, Some(ns[i as int]), ls[j as int]));
                return true;
            }
            j += 1;
        }
        i += 1;
    }
    proof {
        assert forall|namespace: Option<Text>, local: Text| !#[trigger] common_name(
            a@,
            b@,
            namespace,
            local,
        ) by {
            let t = or_empty(namespace);
            let j = if known_namespaces.contains(t) {
                choose|j: int| 0 <= j < known_namespaces.len() && known_namespaces[j] == t
            } else {
                ns.len() - 1
            };
            let k = if known_locals.contains(local) {
                choose|k: int| 0 <= k < known_locals.len() && known_locals[k] == local
            } else {
                ls.len() - 1
            };
            if known_namespaces.contains(t) {
                assert(ns[j] == known_namespaces[j]);
            }
            if known_locals.contains(local) {
                assert(ls[k] == known_locals[k]);
            }
            lemma_indistinct(
                a@,
                known_namespaces,
                known_locals,
                namespace,
                local,
                Some(ns[j]),
                ls[k],
            );
            lemma_indistinct(
                b@,
                known_namespaces,
                known_locals,
                namespace,
                local,
                Some(ns[j]),
                ls[k],
            );
            assert(!common_name(a@, b@, Some(ns[j]), ls[k]));
        }
    }
    false
}

/// Whether two name classes, neither of them a choice, have a name in common. Where one of
/// them is a name, that is the only candidate.
pub fn name_class_atom_overlaps(a: &NameClass, b: &NameClass) -> (r: bool)
    ensures
        r == overlap(a@, b@),
{
    proof {
        a.lemma_model();
        b.lemma_model();
    }
    match (a, b) {
        (NameClass::Name { lexical, namespace, context }, other) => {
            proof {
                lemma_overlap_name(a@, b@);
            }
            name_class_matches(other, namespace, lexical.as_str())
        },
        (other, NameClass::Name { lexical, namespace, context }) => {
            proof {
                lemma_overlap_name(b@, a@);
                law_overlap_is_symmetric(a@, b@);
            }
            name_class_matches(other, namespace, lexical.as_str())
        },
        _ => some_mentioned_in_common(a, b),
    }
}

/// A name has a name in common with a name class that holds it.
proof fn lemma_overlap_name(a: NameModel, b: NameModel)
    requires
        a is Name,
    ensures
        overlap(a, b) == holds_name(b, a->Name_namespace, a->Name_lexical),
{
    if holds_name(b, a->Name_namespace, a->Name_lexical) {
        assert(common_name(a, b, a->Name_namespace, a->Name_lexical));
    }
    if overlap(a, b) {
        let (namespace, local) = choose|namespace: Option<Text>, local: Text| #[trigger]
            common_name(a, b, namespace, local);
        lemma_same_namespace(b, namespace, a->Name_namespace, local);
    }
}

/// A choice has a name in common with what one of its alternatives has one in common with.
proof fn lemma_overlap_choice(options: Seq<NameModel>, b: NameModel)
    ensures
        overlap(NameModel::Choice(options), b) <==> exists|i: int|
            0 <= i < options.len() && overlap(#[trigger] options[i], b),
{
    let a = NameModel::Choice(options);
    if overlap(a, b) {
        let (namespace, local) = choose|namespace: Option<Text>, local: Text| #[trigger]
            common_name(a, b, namespace, local);
        assert(some_holds(options, namespace, local));
        let i = choose|i: int|
            0 <= i < options.len() && holds_name(#[trigger] options[i], namespace, local);
        assert(common_name(options[i], b, namespace, local));
        assert(overlap(options[i], b));
    }
    if exists|i: int| 0 <= i < options.len() && overlap(#[trigger] options[i], b) {
        let i = choose|i: int| 0 <= i < options.len() && overlap(#[trigger] options[i], b);
        let (namespace, local) = choose|namespace: Option<Text>, local: Text| #[trigger]
            common_name(options[i], b, namespace, local);
        assert(some_holds(options, namespace, local));
        assert(common_name(a, b, namespace, local));
    }
}

/// Whether a name class and the atom `b` have a name in common.
fn overlaps_with_atom(a: &NameClass, b: &NameClass) -> (r: bool)
    ensures
        r == overlap(a@, b@),
    decreases a,
{
    proof {
        a.lemma_model();
    }
    match a {
        NameClass::Choice(options) => {
            proof {
                lemma_overlap_choice(names_of(options@), b@);
            }
            let mut i: usize = 0;
            while i < options.len()
                invariant
                    i <= options.len(),
                    a matches NameClass::Choice(v) && v == options,
                    overlap(a@, b@) <==> exists|k: int|
                        0 <= k < options@.len() && overlap(#[trigger] names_of(options@)[k], b@),
                    forall|j: int| 0 <= j < i ==> !overlap(#[trigger] names_of(options@)[j], b@),
                decreases options.len() - i,
            {
                if overlaps_with_atom(&options[i], b) {
                    assert(overlap(names_of(options@)[i as int], b@));
                    return true;
                }
                i += 1;
            }
            false
        },
        _ => name_class_atom_overlaps(a, b),
    }
}

/// Whether two name classes have at least one expanded name in common.
pub fn name_classes_overlap(a: &NameClass, b: &NameClass) -> (r: bool)
    ensures
        r == overlap(a@, b@),
        r <==> exists|namespace: Option<Text>, local: Text| #[trigger]
            common_name(a@, b@, namespace, local),
    decreases b,
{
    proof {
        b.lemma_model();
    }
    match b {
        NameClass::Choice(options) => {
            proof {
                lemma_overlap_choice(names_of(options@), a@);
                law_overlap_is_symmetric(a@, b@);
            }
            let mut i: usize = 0;
            while i < options.len()
                invariant
                    i <= options.len(),
                    b matches NameClass::Choice(v) && v == options,
                    overlap(a@, b@) <==> exists|k: int|
                        0 <= k < options@.len() && overlap(#[trigger] names_of(options@)[k], a@),
                    forall|j: int| 0 <= j < i ==> !overlap(#[trigger] names_of(options@)[j], a@),
                decreases options.len() - i,
            {
                proof {
                    law_overlap_is_symmetric(a@, names_of(options@)[i as int]);
                }
                if name_classes_overlap(a, &options[i]) {
                    assert(overlap(names_of(options@)[i as int], a@));
                    return true;
                }
                i += 1;
            }
            false
        },
        _ => overlaps_with_atom(a, b),
    }
}

/// Whether a namespace is that of `xmlns` attributes, with or without a trailing slash.
pub fn is_xmlns_namespace(namespace: &Option<String>) -> (r: bool)
    ensures
        r == xmlns_namespace(opt_text(*namespace)),
{
    match namespace {
        None => false,
        Some(value) => {
            let chars = to_chars(value.as_str());
            let mut n: usize = chars.len();
            assert(chars@.take(n as int) =~= chars@);
            while n > 0 && chars[n - 1] == '/'
                invariant
                    n <= chars.len(),
                    trim_slashes(chars@) == trim_slashes(chars@.take(n as int)),
                decreases n,
            {
                assert(chars@.take(n as int).drop_last() =~= chars@.take(n - 1));
                n -= 1;
            }
            let head = slice_subrange(chars.as_slice(), 0, n);
            assert(head@ =~= chars@.take(n as int));
            let trimmed = from_chars(head);
            same(trimmed.as_str(), XMLNS_NAMESPACE)
        },
    }
}

/// Checks that an `anyName`'s `except` has no `anyName` in it, and an `nsName`'s
/// neither `nsName` nor `anyName`.
pub fn check_name_class_constraints(class: &NameClass) -> (r: Result<(), SchemaError>)
    ensures
        verdict(r) == name_problem(class@),
    decreases class,
{
    proof {
        class.lemma_model();
    }
    match class {
        NameClass::Any { except, context } => {
            let mut i: usize = 0;
            while i < except.len()
                invariant
                    i <= except.len(),
                    name_problem(class@) == any_except_problem(names_of(except@), except@.len()),
                    class matches NameClass::Any { except: v, context: c } && v == except,
                    any_except_problem(names_of(except@), i as nat) is None,
                    name_problem(class@) != any_except_problem(names_of(except@), i as nat) ==> i
                        < except.len(),
                decreases except.len() - i,
            {
                let item = &except[i];
                if name_class_contains_any(item) {
                    let message =
                        "RELAX NG §4.16: an anyName's except must not contain anyName";
                    proof {
                        lemma_any_except_first(names_of(except@), (i + 1) as nat);
                    }
                    return Err(SchemaError::new(message));
                }
                let checked = check_name_class_constraints(item);
                if checked.is_err() {
                    proof {
                        lemma_any_except_first(names_of(except@), (i + 1) as nat);
                    }
                    return checked;
                }
                i += 1;
            }
            Ok(())
        },
        NameClass::Namespace { namespace, except, context } => {
            let mut i: usize = 0;
            while i < except.len()
                invariant
                    i <= except.len(),
                    name_problem(class@) == ns_except_problem(names_of(except@), except@.len()),
                    class matches NameClass::Namespace { namespace: ns, except: v, context: c } && v
                        == except,
                    ns_except_problem(names_of(except@), i as nat) is None,
                decreases except.len() - i,
            {
                let item = &except[i];
                if name_class_contains_any(item) || name_class_contains_namespace(item) {
                    let message =
                        "RELAX NG §4.16: an nsName's except must not contain nsName or anyName";
                    proof {
                        lemma_ns_except_first(names_of(except@), (i + 1) as nat);
                    }
                    return Err(SchemaError::new(message));
                }
                let checked = check_name_class_constraints(item);
                if checked.is_err() {
                    proof {
                        lemma_ns_except_first(names_of(except@), (i + 1) as nat);
                    }
                    return checked;
                }
                i += 1;
            }
            Ok(())
        },
        NameClass::Name { lexical, namespace, context } => Ok(()),
        NameClass::Choice(options) => {
            let mut i: usize = 0;
            while i < options.len()
                invariant
                    i <= options.len(),
                    name_problem(class@) == names_problem(names_of(options@), options@.len()),
                    class matches NameClass::Choice(v) && v == options,
                    names_problem(names_of(options@), i as nat) is None,
                decreases options.len() - i,
            {
                let checked = check_name_class_constraints(&options[i]);
                if checked.is_err() {
                    proof {
                        lemma_names_first(names_of(options@), (i + 1) as nat);
                    }
                    return checked;
                }
                i += 1;
            }
            Ok(())
        },
    }
}

/// The first problem of a prefix of the exceptions is that of them all.
proof fn lemma_any_except_first(except: Seq<NameModel>, n: nat)
    requires
        n <= except.len(),
        any_except_problem(except, n) is Some,
    ensures
        any_except_problem(except, except.len()) == any_except_problem(except, n),
    decreases except.len() - n,
{
    if n < except.len() {
        lemma_any_except_first(except, n + 1);
    }
}

/// The first problem of a prefix of the exceptions is that of them all.
proof fn lemma_ns_except_first(except: Seq<NameModel>, n: nat)
    requires
        n <= except.len(),
        ns_except_problem(except, n) is Some,
    ensures
        ns_except_problem(except, except.len()) == ns_except_problem(except, n),
    decreases except.len() - n,
{
    if n < except.len() {
        lemma_ns_except_first(except, n + 1);
    }
}

/// The first problem of a prefix of the name classes is that of them all.
proof fn lemma_names_first(classes: Seq<NameModel>, n: nat)
    requires
        n <= classes.len(),
        names_problem(classes, n) is Some,
    ensures
        names_problem(classes, classes.len()) == names_problem(classes, n),
    decreases classes.len() - n,
{
    if n < classes.len() {
        lemma_names_first(classes, n + 1);
    }
}

/// The first problem of a prefix of the name classes is that of them all.
proof fn lemma_attribute_names_first(classes: Seq<NameModel>, n: nat)
    requires
        n <= classes.len(),
        attribute_names_problem(classes, n) is Some,
    ensures
        attribute_names_problem(classes, classes.len()) == attribute_names_problem(classes, n),
    decreases classes.len() - n,
{
    if n < classes.len() {
        lemma_attribute_names_first(classes, n + 1);
    }
}

/// The error about an attribute in the namespace of `xmlns`.
fn xmlns_error() -> (r: SchemaError)
    ensures
        r@ == xmlns_complaint(),
{
    SchemaError::from_string(
        concat3(
            "RELAX NG §4.16: an attribute name class must not use the ",
            XMLNS_NAMESPACE,
            " namespace",
        ),
    )
}

/// Checks that the name class of an `attribute` names neither `xmlns` in no namespace
/// nor the namespace of `xmlns`, since neither denotes an attribute.
pub fn check_attribute_name_class_constraints(class: &NameClass) -> (r: Result<(), SchemaError>)
    ensures
        verdict(r) == attribute_name_problem(class@),
    decreases class,
{
    proof {
        class.lemma_model();
    }
    match class {
        NameClass::Name { lexical, namespace, context } => {
            if ns_eq(namespace, &None) && same(lexical.as_str(), "xmlns") {
                let message =
                    "RELAX NG §4.16: an attribute name class must not match `xmlns` in no namespace";
                return Err(SchemaError::new(message));
            }
            if is_xmlns_namespace(namespace) {
                return Err(xmlns_error());
            }
            Ok(())
        },
        NameClass::Namespace { namespace, except, context } => {
            if is_xmlns_namespace(namespace) {
                return Err(xmlns_error());
            }
            check_attribute_name_classes(except)
        },
        NameClass::Any { except, context } => check_attribute_name_classes(except),
        NameClass::Choice(options) => check_attribute_name_classes(options),
    }
}

/// Checks name classes of attributes, one by one.
fn check_attribute_name_classes(classes: &Vec<NameClass>) -> (r: Result<(), SchemaError>)
    ensures
        verdict(r) == attribute_names_problem(names_of(classes@), classes@.len()),
    decreases classes,
{
    let mut i: usize = 0;
    while i < classes.len()
        invariant
            i <= classes.len(),
            attribute_names_problem(names_of(classes@), i as nat) is None,
        decreases classes.len() - i,
    {
        let checked = check_attribute_name_class_constraints(&classes[i]);
        if checked.is_err() {
            proof {
                lemma_attribute_names_first(names_of(classes@), (i + 1) as nat);
            }
            return checked;
        }
        i += 1;
    }
    Ok(())
}

// ---------------------------------------------------------------------
// Laws
// ---------------------------------------------------------------------

/// What two name classes have in common does not depend on their order.
pub proof fn law_overlap_is_symmetric(a: NameModel, b: NameModel)
    ensures
        overlap(a, b) == overlap(b, a),
{
    if overlap(a, b) {
        let (namespace, local) = choose|namespace: Option<Text>, local: Text| #[trigger]
            common_name(a, b, namespace, local);
        assert(common_name(b, a, namespace, local));
    }
    if overlap(b, a) {
        let (namespace, local) = choose|namespace: Option<Text>, local: Text| #[trigger]
            common_name(b, a, namespace, local);
        assert(common_name(a, b, namespace, local));
    }
}

/// No namespace, given either way, makes no difference to which names are held.
pub proof fn lemma_same_namespace(
    class: NameModel,
    namespace: Option<Text>,
    other: Option<Text>,
    local: Text,
)
    requires
        same_namespace(namespace, other),
    ensures
        holds_name(class, namespace, local) == holds_name(class, other, local),
    decreases class,
{
    match class {
        NameModel::Name { lexical, namespace: ns, context } => {},
        NameModel::Any { except, context } => {
            assert forall|i: int| 0 <= i < except.len() implies holds_name(
                #[trigger] except[i],
                namespace,
                local,
            ) == holds_name(except[i], other, local) by {
                lemma_same_namespace(except[i], namespace, other, local);
            }
        },
        NameModel::Namespace { namespace: ns, except, context } => {
            assert forall|i: int| 0 <= i < except.len() implies holds_name(
                #[trigger] except[i],
                namespace,
                local,
            ) == holds_name(except[i], other, local) by {
                lemma_same_namespace(except[i], namespace, other, local);
            }
        },
        NameModel::Choice(options) => {
            assert forall|i: int| 0 <= i < options.len() implies holds_name(
                #[trigger] options[i],
                namespace,
                local,
            ) == holds_name(options[i], other, local) by {
                lemma_same_namespace(options[i], namespace, other, local);
            }
        },
    }
}

/// An attribute's name class that passes the check does not offer `xmlns` in no
/// namespace, nor any name of the namespace of `xmlns`, other than through `anyName`.
pub proof fn law_attribute_names_are_not_xmlns(
    class: NameModel,
    namespace: Option<Text>,
    local: Text,
)
    requires
        attribute_name_problem(class) is None,
        !infinite_names(class),
        holds_name(class, namespace, local),
    ensures
        !(same_namespace(namespace, None) && local == "xmlns"@),
        !xmlns_namespace(namespace),
    decreases class,
{
    match class {
        NameModel::Name { lexical, namespace: ns, context } => {
            if xmlns_namespace(namespace) && namespace is Some {
                if ns is None {
                    assert(or_empty(namespace) =~= Seq::<char>::empty());
                    assert(trim_slashes(namespace->0) =~= Seq::<char>::empty());
                    reveal_strlit("http://www.w3.org/2000/xmlns");
                    assert(false);
                } else {
                    assert(ns->0 == namespace->0);
                }
            }
        },
        NameModel::Choice(options) => {
            let i = choose|i: int|
                0 <= i < options.len() && holds_name(#[trigger] options[i], namespace, local);
            lemma_attribute_names_each(options, options.len(), i);
            law_attribute_names_are_not_xmlns(options[i], namespace, local);
        },
        _ => {},
    }
}

/// Where no prefix has a problem, no element has one.
proof fn lemma_attribute_names_each(classes: Seq<NameModel>, n: nat, i: int)
    requires
        n <= classes.len(),
        0 <= i < n,
        attribute_names_problem(classes, n) is None,
    ensures
        attribute_name_problem(classes[i]) is None,
    decreases n,
{
    if i < n - 1 {
        lemma_attribute_names_each(classes, (n - 1) as nat, i);
    }
}

/// A name class holds what its parts say. A name is held by its own class alone, whatever way
/// no namespace is given. A wildcard holds what it would hold without exceptions, save what
/// one of its exceptions holds; without exceptions it holds every name, or every one of its
/// namespace. Alternatives hold what one of them does.
pub proof fn law_name_classes_hold_what_their_parts_say(
    lexical: Text,
    ns: Option<Text>,
    except: Seq<NameModel>,
    more: Seq<NameModel>,
    context: ContextModel,
    namespace: Option<Text>,
    local: Text,
)
    ensures
        ({
            let name = NameModel::Name { lexical, namespace: ns, context };
            let none = Seq::<NameModel>::empty();
            let any = NameModel::Any { except, context };
            let all = NameModel::Any { except: none, context };
            let some = NameModel::Namespace { namespace: ns, except, context };
            let whole = NameModel::Namespace { namespace: ns, except: none, context };
            let excepted = holds_name(NameModel::Choice(except), namespace, local);
            &&& holds_name(name, namespace, local) <==> lexical == local && (ns == namespace
                || or_empty(ns).len() == 0 && or_empty(namespace).len() == 0)
            &&& holds_name(all, namespace, local)
            &&& holds_name(any, namespace, local) <==> !excepted
            &&& holds_name(whole, namespace, local) <==> (ns == namespace || or_empty(ns).len()
                == 0 && or_empty(namespace).len() == 0)
            &&& holds_name(some, namespace, local) <==> holds_name(whole, namespace, local)
                && !excepted
            &&& !holds_name(NameModel::Choice(none), namespace, local)
            &&& holds_name(NameModel::Choice(except + more), namespace, local) <==> excepted
                || holds_name(NameModel::Choice(more), namespace, local)
            &&& holds_name(NameModel::Choice(seq![name]), namespace, local) <==> holds_name(
                name,
                namespace,
                local,
            )
        }),
{
    let name = NameModel::Name { lexical, namespace: ns, context };
    let both = except + more;
    let none = Seq::<NameModel>::empty();
    if or_empty(ns).len() == 0 && or_empty(namespace).len() == 0 {
        assert(or_empty(ns) =~= or_empty(namespace));
    }
    if same_namespace(ns, namespace) && ns != namespace {
        assert(or_empty(ns).len() == 0);
    }
    assert(!some_holds(none, namespace, local));
    assert(seq![name][0] == name);
    if some_holds(except, namespace, local) {
        let i = choose|i: int|
            0 <= i < except.len() && holds_name(#[trigger] except[i], namespace, local);
        assert(both[i] == except[i]);
        assert(some_holds(both, namespace, local));
    }
    if some_holds(more, namespace, local) {
        let i = choose|i: int|
            0 <= i < more.len() && holds_name(#[trigger] more[i], namespace, local);
        assert(both[except.len() + i] == more[i]);
        assert(some_holds(both, namespace, local));
    }
    if some_holds(both, namespace, local) {
        let i = choose|i: int|
            0 <= i < both.len() && holds_name(#[trigger] both[i], namespace, local);
        if i < except.len() {
            assert(except[i] == both[i]);
        } else {
            assert(more[i - except.len()] == both[i]);
        }
    }
}

/// Whether a name class of a sort occurs somewhere in a name class, itself included.
pub open spec fn somewhere(class: NameModel, sort: spec_fn(NameModel) -> bool) -> bool
    decreases class,
{
    sort(class) || match class {
        NameModel::Name { lexical, namespace, context } => false,
        NameModel::Any { except, context } => somewhere_among(except, sort),
        NameModel::Namespace { namespace, except, context } => somewhere_among(except, sort),
        NameModel::Choice(options) => somewhere_among(options, sort),
    }
}

/// Whether a name class of a sort occurs somewhere in some of the name classes.
pub open spec fn somewhere_among(
    classes: Seq<NameModel>,
    sort: spec_fn(NameModel) -> bool,
) -> bool
    decreases classes,
{
    exists|i: int| 0 <= i < classes.len() && somewhere(#[trigger] classes[i], sort)
}

/// The sort of name classes that hold every name.
pub open spec fn wild() -> spec_fn(NameModel) -> bool {
    |class: NameModel| class is Any
}

/// The sort of name classes that hold every name of a namespace.
pub open spec fn half_wild() -> spec_fn(NameModel) -> bool {
    |class: NameModel| class is Namespace
}

/// The sort of wildcards that have a wildcard among their exceptions that holds as many names
/// or more.
pub open spec fn too_wild() -> spec_fn(NameModel) -> bool {
    |class: NameModel|
        match class {
            NameModel::Any { except, context } => somewhere_among(except, wild()),
            NameModel::Namespace { namespace, except, context } => somewhere_among(except, wild())
                || somewhere_among(except, half_wild()),
            _ => false,
        }
}

/// The sort of names that are not those of attributes: `xmlns` in no namespace, and the names
/// of the namespace of `xmlns`.
pub open spec fn reserved() -> spec_fn(NameModel) -> bool {
    |class: NameModel|
        match class {
            NameModel::Name { lexical, namespace, context } => or_empty(namespace).len() == 0
                && lexical == "xmlns"@ || xmlns_namespace(namespace),
            NameModel::Namespace { namespace, except, context } => xmlns_namespace(namespace),
            _ => false,
        }
}

/// Name classes are accepted exactly where no wildcard has one among its exceptions that
/// holds as many names or more, and those of attributes where no reserved name occurs. The
/// classes that may hold infinitely many names are those with a wildcard.
pub proof fn law_name_classes_are_accepted(class: NameModel)
    ensures
        contains_any(class) <==> somewhere(class, wild()),
        contains_ns(class) <==> somewhere(class, half_wild()),
        name_problem(class) is None <==> !somewhere(class, too_wild()),
        attribute_name_problem(class) is None <==> !somewhere(class, reserved()),
        infinite_names(class) <==> somewhere(class, wild()) || somewhere(class, half_wild()),
    decreases class,
{
    let empty = Seq::<char>::empty();
    match class {
        NameModel::Name { lexical, namespace, context } => {
            if or_empty(namespace).len() == 0 {
                assert(or_empty(namespace) =~= empty);
            }
        },
        NameModel::Any { except, context } => {
            lemma_among(except, except.len());
        },
        NameModel::Namespace { namespace, except, context } => {
            lemma_among(except, except.len());
        },
        NameModel::Choice(options) => {
            lemma_among(options, options.len());
            if some_infinite(options) {
                let i = choose|i: int|
                    0 <= i < options.len() && infinite_names(#[trigger] options[i]);
                law_name_classes_are_accepted(options[i]);
            }
            if somewhere_among(options, wild()) {
                let i = choose|i: int|
                    0 <= i < options.len() && somewhere(#[trigger] options[i], wild());
                law_name_classes_are_accepted(options[i]);
                assert(infinite_names(options[i]));
            }
            if somewhere_among(options, half_wild()) {
                let i = choose|i: int|
                    0 <= i < options.len() && somewhere(#[trigger] options[i], half_wild());
                law_name_classes_are_accepted(options[i]);
                assert(infinite_names(options[i]));
            }
        },
    }
}

/// What occurs among the first `n` name classes.
pub open spec fn among_first(
    classes: Seq<NameModel>,
    n: nat,
    sort: spec_fn(NameModel) -> bool,
) -> bool {
    exists|i: int| 0 <= i < n && somewhere(#[trigger] classes[i], sort)
}

/// Several name classes are accepted exactly where each is.
proof fn lemma_among(classes: Seq<NameModel>, n: nat)
    requires
        n <= classes.len(),
    ensures
        some_contain_any(classes) <==> somewhere_among(classes, wild()),
        some_contain_ns(classes) <==> somewhere_among(classes, half_wild()),
        any_except_problem(classes, n) is None <==> !among_first(classes, n, too_wild())
            && !among_first(classes, n, wild()),
        ns_except_problem(classes, n) is None <==> !among_first(classes, n, too_wild())
            && !among_first(classes, n, wild()) && !among_first(classes, n, half_wild()),
        names_problem(classes, n) is None <==> !among_first(classes, n, too_wild()),
        attribute_names_problem(classes, n) is None <==> !among_first(classes, n, reserved()),
    decreases classes, n,
{
    assert forall|i: int| 0 <= i < classes.len() implies (contains_any(#[trigger] classes[i])
        <==> somewhere(classes[i], wild())) by {
        law_name_classes_are_accepted(classes[i]);
    }
    assert forall|i: int| 0 <= i < classes.len() implies (contains_ns(#[trigger] classes[i])
        <==> somewhere(classes[i], half_wild())) by {
        law_name_classes_are_accepted(classes[i]);
    }
    if n > 0 {
        lemma_among(classes, (n - 1) as nat);
        law_name_classes_are_accepted(classes[n - 1]);
        lemma_one_more_among(classes, n, wild());
        lemma_one_more_among(classes, n, half_wild());
        lemma_one_more_among(classes, n, too_wild());
        lemma_one_more_among(classes, n, reserved());
    }
}

/// What occurs among the first name classes occurs before the last of them or in it.
proof fn lemma_one_more_among(
    classes: Seq<NameModel>,
    n: nat,
    sort: spec_fn(NameModel) -> bool,
)
    requires
        0 < n <= classes.len(),
    ensures
        among_first(classes, n, sort) <==> among_first(classes, (n - 1) as nat, sort) || somewhere(
            classes[n - 1],
            sort,
        ),
{
    if among_first(classes, (n - 1) as nat, sort) {
        let i = choose|i: int| 0 <= i < n - 1 && somewhere(#[trigger] classes[i], sort);
        assert(somewhere(classes[i], sort));
    }
}

} // verus!
