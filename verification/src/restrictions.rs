//! The restrictions on where patterns may stand inside one another, checked on the
//! composed schema.
use vstd::prelude::*;

use crate::derivative::{Definitions, Defs};
use crate::grammar::{
    copy_name, names_of, patterns_of, NameClass, NameModel, Pattern, PatternModel,
};
use crate::name_class::{
    infinite_names, name_class_has_infinite_names, name_classes_overlap, overlap,
};
use crate::simplify::{verdict, SchemaError};
use crate::string_map::lookup;
use crate::text::{concat3, holds, opt_text, same, texts, Text};

verus! {

// ---------------------------------------------------------------------
// What may stand inside what
// ---------------------------------------------------------------------

/// What a pattern stands inside of, an element apart.
#[derive(Clone, Copy, Debug, PartialEq, Eq, Structural)]
pub struct Inside {
    /// An attribute.
    pub attribute: bool,
    /// A list.
    pub list: bool,
    /// A repetition.
    pub one_or_more: bool,
    /// A group or an interleave inside a repetition. A repetition around an attribute
    /// alone is allowed, one around a group that holds an attribute is not.
    pub container: bool,
}

/// What a pattern directly inside an element stands inside of: nothing.
pub open spec fn inside_nothing() -> Inside {
    Inside { attribute: false, list: false, one_or_more: false, container: false }
}

/// Named patterns, with what they are checked inside of.
pub type Passed = Seq<(Text, Inside)>;

/// Checks a pattern, following references, save to a name that is being checked already or
/// has passed, inside the same. The result is what has passed so far, or the first
/// complaint.
pub open spec fn restrict(
    p: PatternModel,
    inside: Inside,
    defs: Defs,
    visiting: Passed,
    passed: Passed,
    depth: nat,
) -> Result<Passed, Text>
    decreases depth, p, 0nat,
{
    match p {
        PatternModel::Ref(name) => if passed.contains((name, inside)) {
            Ok(passed)
        } else {
            match lookup(defs, name) {
                None => Ok(passed),
                Some(target) => if visiting.contains((name, inside)) || depth == 0 {
                    Ok(passed)
                } else {
                    match restrict(
                        target,
                        inside,
                        defs,
                        visiting.push((name, inside)),
                        passed,
                        (depth - 1) as nat,
                    ) {
                        Err(message) => Err(message),
                        Ok(after) => Ok(after.push((name, inside))),
                    }
                },
            }
        },
        PatternModel::Attribute { name, body, context } => if inside.list {
            Err("RELAX NG §7.1.3: a list pattern cannot contain attribute"@)
        } else if inside.attribute {
            Err("RELAX NG §7.1.1: an attribute pattern cannot contain an attribute"@)
        } else if inside.container {
            Err(
                "RELAX NG §7.1.2: a oneOrMore pattern cannot wrap a group/interleave containing an attribute"@,
            )
        } else if infinite_names(name) && !inside.one_or_more {
            Err(
                "RELAX NG §7.3: an attribute with an anyName or nsName name class must have a oneOrMore ancestor"@,
            )
        } else {
            restrict_all(
                body,
                Inside { attribute: true, ..inside },
                defs,
                visiting,
                passed,
                depth,
                body.len(),
            )
        },
        PatternModel::List(values) => if inside.list {
            Err("RELAX NG §7.1.3: a list pattern cannot contain list"@)
        } else {
            restrict_all(
                values,
                Inside { list: true, ..inside },
                defs,
                visiting,
                passed,
                depth,
                values.len(),
            )
        },
        PatternModel::Interleave(values) => if inside.list {
            Err("RELAX NG §7.1.3: a list pattern cannot contain interleave"@)
        } else {
            restrict_all(
                values,
                Inside { container: inside.container || inside.one_or_more, ..inside },
                defs,
                visiting,
                passed,
                depth,
                values.len(),
            )
        },
        PatternModel::Text => if inside.list {
            Err("RELAX NG §7.1.3: a list pattern cannot contain text"@)
        } else {
            Ok(passed)
        },
        PatternModel::Element { name, body, context } => if inside.attribute {
            Err("RELAX NG §7.1.1: an attribute pattern cannot contain an element"@)
        } else if inside.list {
            Err("RELAX NG §7.1.3: a list pattern cannot contain element"@)
        } else {
            restrict_all(body, inside_nothing(), defs, visiting, passed, depth, body.len())
        },
        PatternModel::OneOrMore(values) => restrict_all(
            values,
            Inside { one_or_more: true, ..inside },
            defs,
            visiting,
            passed,
            depth,
            values.len(),
        ),
        PatternModel::ZeroOrMore(values) => restrict_all(
            values,
            Inside { one_or_more: true, ..inside },
            defs,
            visiting,
            passed,
            depth,
            values.len(),
        ),
        PatternModel::Group(values) => restrict_all(
            values,
            Inside { container: inside.container || inside.one_or_more, ..inside },
            defs,
            visiting,
            passed,
            depth,
            values.len(),
        ),
        PatternModel::Choice(values) => restrict_all(
            values,
            inside,
            defs,
            visiting,
            passed,
            depth,
            values.len(),
        ),
        PatternModel::Optional(values) => restrict_all(
            values,
            inside,
            defs,
            visiting,
            passed,
            depth,
            values.len(),
        ),
        PatternModel::Mixed(values) => restrict_all(
            values,
            inside,
            defs,
            visiting,
            passed,
            depth,
            values.len(),
        ),
        PatternModel::Data { datatype, datatype_library, params, except, context } =>
            match except_problems(except, except.len()) {
                Some(message) => Err(message),
                None => Ok(passed),
            },
        _ => Ok(passed),
    }
}

/// Checks the first `n` patterns.
pub open spec fn restrict_all(
    s: Seq<PatternModel>,
    inside: Inside,
    defs: Defs,
    visiting: Passed,
    passed: Passed,
    depth: nat,
    n: nat,
) -> Result<Passed, Text>
    decreases depth, s, n,
{
    if n == 0 || n > s.len() {
        Ok(passed)
    } else {
        match restrict_all(s, inside, defs, visiting, passed, depth, (n - 1) as nat) {
            Err(message) => Err(message),
            Ok(before) => restrict(s[n - 1], inside, defs, visiting, before, depth),
        }
    }
}

/// The complaint about an exception of a datatype: only `data`, `value` and choices of them
/// may stand there.
pub open spec fn except_problem(p: PatternModel) -> Option<Text>
    decreases p, 0nat,
{
    match p {
        PatternModel::Data { datatype, datatype_library, params, except, context } =>
            except_problems(except, except.len()),
        PatternModel::Value { value, datatype, datatype_library, namespace, context } => None,
        PatternModel::Choice(values) => except_problems(values, values.len()),
        _ => Some(
            "RELAX NG §7.1.4: a data/except pattern may only contain data, value or choice"@,
        ),
    }
}

/// The complaint about the first `n` exceptions of a datatype.
pub open spec fn except_problems(s: Seq<PatternModel>, n: nat) -> Option<Text>
    decreases s, n,
{
    if n == 0 || n > s.len() {
        None
    } else {
        match except_problems(s, (n - 1) as nat) {
            Some(message) => Some(message),
            None => except_problem(s[n - 1]),
        }
    }
}

/// Checks what a schema may start with: references and choices around elements and
/// `notAllowed`.
pub open spec fn start_problem(p: PatternModel, defs: Defs, visiting: Seq<Text>, depth: nat) -> Option<
    Text,
>
    decreases depth, p, 0nat,
{
    match p {
        PatternModel::Choice(values) => start_problems(values, defs, visiting, depth, values.len()),
        PatternModel::Ref(name) => match lookup(defs, name) {
            None => None,
            Some(target) => if visiting.contains(name) || depth == 0 {
                None
            } else {
                start_problem(target, defs, visiting.push(name), (depth - 1) as nat)
            },
        },
        PatternModel::Attribute { name, body, context } => Some(
            "RELAX NG §7.1.5: start cannot contain attribute"@,
        ),
        PatternModel::Data { datatype, datatype_library, params, except, context } => Some(
            "RELAX NG §7.1.5: start cannot contain data"@,
        ),
        PatternModel::Value { value, datatype, datatype_library, namespace, context } => Some(
            "RELAX NG §7.1.5: start cannot contain value"@,
        ),
        PatternModel::Text => Some("RELAX NG §7.1.5: start cannot contain text"@),
        PatternModel::List(values) => Some("RELAX NG §7.1.5: start cannot contain list"@),
        PatternModel::Group(values) => Some("RELAX NG §7.1.5: start cannot contain group"@),
        PatternModel::Interleave(values) => Some(
            "RELAX NG §7.1.5: start cannot contain interleave"@,
        ),
        PatternModel::OneOrMore(values) => Some(
            "RELAX NG §7.1.5: start cannot contain oneOrMore"@,
        ),
        PatternModel::Empty => Some("RELAX NG §7.1.5: start cannot contain empty"@),
        _ => None,
    }
}

/// The complaint about the first `n` alternatives of a start.
pub open spec fn start_problems(
    s: Seq<PatternModel>,
    defs: Defs,
    visiting: Seq<Text>,
    depth: nat,
    n: nat,
) -> Option<Text>
    decreases depth, s, n,
{
    if n == 0 || n > s.len() {
        None
    } else {
        match start_problems(s, defs, visiting, depth, (n - 1) as nat) {
            Some(message) => Some(message),
            None => start_problem(s[n - 1], defs, visiting, depth),
        }
    }
}

// ---------------------------------------------------------------------
// What may stand beside what
// ---------------------------------------------------------------------

/// What an operand of a group or an interleave holds, elements, attributes and lists not
/// entered.
#[verifier::ext_equal]
pub struct Holdings {
    /// The name classes of its attributes.
    pub attributes: Seq<NameModel>,
    /// The name classes of its elements.
    pub elements: Seq<NameModel>,
    /// Whether it holds text.
    pub has_text: bool,
    /// Whether it can match a child: an element, data, a value, a list or text.
    pub child_capable: bool,
    /// Whether it can match a single string: data, a value or a list.
    pub string_capable: bool,
}

/// What holds nothing.
pub open spec fn nothing_held() -> Holdings {
    Holdings {
        attributes: Seq::empty(),
        elements: Seq::empty(),
        has_text: false,
        child_capable: false,
        string_capable: false,
    }
}

/// Adds what a pattern holds, following references save to a name that is being followed
/// already.
pub open spec fn held(
    p: PatternModel,
    defs: Defs,
    visiting: Seq<Text>,
    out: Holdings,
    depth: nat,
) -> Holdings
    decreases depth, p, 0nat,
{
    match p {
        PatternModel::Attribute { name, body, context } => Holdings {
            attributes: out.attributes.push(name),
            ..out
        },
        PatternModel::Element { name, body, context } => Holdings {
            elements: out.elements.push(name),
            child_capable: true,
            ..out
        },
        PatternModel::Text => Holdings { has_text: true, child_capable: true, ..out },
        PatternModel::Data { datatype, datatype_library, params, except, context } => Holdings {
            child_capable: true,
            string_capable: true,
            ..out
        },
        PatternModel::Value { value, datatype, datatype_library, namespace, context } => Holdings {
            child_capable: true,
            string_capable: true,
            ..out
        },
        PatternModel::List(values) => Holdings {
            child_capable: true,
            string_capable: true,
            ..out
        },
        PatternModel::Ref(name) => match lookup(defs, name) {
            None => out,
            Some(target) => if visiting.contains(name) || depth == 0 {
                out
            } else {
                held(target, defs, visiting.push(name), out, (depth - 1) as nat)
            },
        },
        PatternModel::Group(values) => held_all(values, defs, visiting, out, depth, values.len()),
        PatternModel::Choice(values) => held_all(values, defs, visiting, out, depth, values.len()),
        PatternModel::Interleave(values) => held_all(
            values,
            defs,
            visiting,
            out,
            depth,
            values.len(),
        ),
        PatternModel::Optional(values) => held_all(
            values,
            defs,
            visiting,
            out,
            depth,
            values.len(),
        ),
        PatternModel::ZeroOrMore(values) => held_all(
            values,
            defs,
            visiting,
            out,
            depth,
            values.len(),
        ),
        PatternModel::OneOrMore(values) => held_all(
            values,
            defs,
            visiting,
            out,
            depth,
            values.len(),
        ),
        PatternModel::Mixed(values) => held_all(values, defs, visiting, out, depth, values.len()),
        _ => out,
    }
}

/// Adds what the first `n` patterns hold.
pub open spec fn held_all(
    s: Seq<PatternModel>,
    defs: Defs,
    visiting: Seq<Text>,
    out: Holdings,
    depth: nat,
    n: nat,
) -> Holdings
    decreases depth, s, n,
{
    if n == 0 || n > s.len() {
        out
    } else {
        held(
            s[n - 1],
            defs,
            visiting,
            held_all(s, defs, visiting, out, depth, (n - 1) as nat),
            depth,
        )
    }
}

/// What each operand holds.
pub open spec fn holdings_of(s: Seq<PatternModel>, defs: Defs, depth: nat) -> Seq<Holdings> {
    Seq::new(s.len(), |i: int| held(s[i], defs, Seq::empty(), nothing_held(), depth))
}

/// Whether some name class of the one has a name in common with some of the other.
pub open spec fn some_overlap(a: Seq<NameModel>, b: Seq<NameModel>) -> bool {
    exists|i: int, j: int|
        0 <= i < a.len() && 0 <= j < b.len() && overlap(#[trigger] a[i], #[trigger] b[j])
}

/// The complaint about two operands of one group or interleave.
pub open spec fn pair_problem(left: Holdings, right: Holdings, is_interleave: bool) -> Option<Text> {
    if (left.child_capable && right.string_capable) || (left.string_capable
        && right.child_capable) {
        Some(
            "RELAX NG §7.2: a pattern matching a child and a pattern matching a single string must be alternatives"@,
        )
    } else if some_overlap(left.attributes, right.attributes) {
        Some(
            "RELAX NG §7.3: a group/interleave must not allow two attributes with the same name"@,
        )
    } else if is_interleave && left.has_text && right.has_text {
        Some(
            "RELAX NG §7.4: a text pattern must not occur on both sides of an interleave"@,
        )
    } else if is_interleave && some_overlap(left.elements, right.elements) {
        Some(
            "RELAX NG §7.4: an interleave must not allow overlapping element names on both sides"@,
        )
    } else {
        None
    }
}

/// The complaint about the operand at `i` with a later one, among the first `n`.
pub open spec fn row_problem(s: Seq<Holdings>, i: int, is_interleave: bool, n: nat) -> Option<Text>
    decreases n,
{
    if n == 0 || n > s.len() {
        None
    } else {
        match row_problem(s, i, is_interleave, (n - 1) as nat) {
            Some(message) => Some(message),
            None => if i < n - 1 {
                pair_problem(s[i], s[n - 1], is_interleave)
            } else {
                None
            },
        }
    }
}

/// The complaint about any of the first `n` operands with a later one.
pub open spec fn rows_problem(s: Seq<Holdings>, is_interleave: bool, n: nat) -> Option<Text>
    decreases n,
{
    if n == 0 || n > s.len() {
        None
    } else {
        match rows_problem(s, is_interleave, (n - 1) as nat) {
            Some(message) => Some(message),
            None => row_problem(s, n - 1, is_interleave, s.len()),
        }
    }
}

/// The complaint about two operands of a group or interleave.
pub open spec fn operands_problem(
    s: Seq<PatternModel>,
    defs: Defs,
    is_interleave: bool,
    depth: nat,
) -> Option<Text> {
    rows_problem(holdings_of(s, defs, depth), is_interleave, s.len())
}

/// The complaint about the groups and interleaves of a pattern, references not followed.
pub open spec fn groups_problem(p: PatternModel, defs: Defs, depth: nat) -> Option<Text>
    decreases p, 0nat,
{
    match p {
        PatternModel::Group(values) => match operands_problem(values, defs, false, depth) {
            Some(message) => Some(message),
            None => all_groups_problem(values, defs, depth, values.len()),
        },
        PatternModel::Interleave(values) => match operands_problem(values, defs, true, depth) {
            Some(message) => Some(message),
            None => all_groups_problem(values, defs, depth, values.len()),
        },
        PatternModel::Element { name, body, context } => all_groups_problem(
            body,
            defs,
            depth,
            body.len(),
        ),
        PatternModel::Attribute { name, body, context } => all_groups_problem(
            body,
            defs,
            depth,
            body.len(),
        ),
        PatternModel::Choice(values) => all_groups_problem(values, defs, depth, values.len()),
        PatternModel::Optional(values) => all_groups_problem(values, defs, depth, values.len()),
        PatternModel::ZeroOrMore(values) => all_groups_problem(values, defs, depth, values.len()),
        PatternModel::OneOrMore(values) => all_groups_problem(values, defs, depth, values.len()),
        PatternModel::Mixed(values) => all_groups_problem(values, defs, depth, values.len()),
        _ => None,
    }
}

/// The complaint about the groups and interleaves of the first `n` patterns.
pub open spec fn all_groups_problem(s: Seq<PatternModel>, defs: Defs, depth: nat, n: nat) -> Option<
    Text,
>
    decreases s, n,
{
    if n == 0 || n > s.len() {
        None
    } else {
        match all_groups_problem(s, defs, depth, (n - 1) as nat) {
            Some(message) => Some(message),
            None => groups_problem(s[n - 1], defs, depth),
        }
    }
}

// ---------------------------------------------------------------------
// The functions: what may stand inside what
// ---------------------------------------------------------------------

/// A named pattern, and what it is checked inside of.
pub struct Checked {
    name: String,
    inside: Inside,
}

/// The models of entries.
pub closed spec fn passed_of(s: Seq<Checked>) -> Passed {
    Seq::new(s.len(), |i: int| (s[i].name@, s[i].inside))
}

/// Whether a name is among entries, inside the same.
fn holds_checked(entries: &Vec<Checked>, name: &str, inside: Inside) -> (r: bool)
    ensures
        r == passed_of(entries@).contains((name@, inside)),
{
    let ghost models = passed_of(entries@);
    let mut i: usize = 0;
    while i < entries.len()
        invariant
            i <= entries.len(),
            models == passed_of(entries@),
            forall|j: int| 0 <= j < i ==> #[trigger] models[j] != (name@, inside),
        decreases entries.len() - i,
    {
        assert(models[i as int] == (entries@[i as int].name@, entries@[i as int].inside));
        if entries[i].inside == inside && same(entries[i].name.as_str(), name) {
            return true;
        }
        i += 1;
    }
    false
}

/// What a check of restrictions carries along.
pub struct RestrictionScope {
    visiting: Vec<Checked>,
    passed: Vec<Checked>,
}

impl RestrictionScope {
    /// What is being checked.
    pub closed spec fn in_progress(&self) -> Passed {
        passed_of(self.visiting@)
    }

    /// What has passed.
    pub closed spec fn done(&self) -> Passed {
        passed_of(self.passed@)
    }

    /// The scope in which nothing has been checked.
    pub fn new() -> (r: Self)
        ensures
            r.in_progress() == Seq::<(Text, Inside)>::empty(),
            r.done() == Seq::<(Text, Inside)>::empty(),
    {
        let r = RestrictionScope { visiting: Vec::new(), passed: Vec::new() };
        assert(r.in_progress() =~= Seq::<(Text, Inside)>::empty());
        assert(r.done() =~= Seq::<(Text, Inside)>::empty());
        r
    }
}

/// Checks where the parts of a pattern stand; see [`restrict`].
pub fn check_restrictions(
    pattern: &Pattern,
    inside: Inside,
    definitions: &Definitions,
    scope: &mut RestrictionScope,
    depth: u64,
) -> (r: Result<(), SchemaError>)
    ensures
        match r {
            Ok(_) => restrict(
                pattern@,
                inside,
                definitions@,
                old(scope).in_progress(),
                old(scope).done(),
                depth as nat,
            ) == Ok::<Passed, Text>(final(scope).done()) && final(scope).in_progress() == old(
                scope,
            ).in_progress(),
            Err(error) => restrict(
                pattern@,
                inside,
                definitions@,
                old(scope).in_progress(),
                old(scope).done(),
                depth as nat,
            ) == Err::<Passed, Text>(error@),
        },
    decreases depth, pattern,
{
    proof {
        pattern.lemma_model();
    }
    match pattern {
        Pattern::Ref(name) => {
            if holds_checked(&scope.passed, name.as_str(), inside) {
                return Ok(());
            }
            match definitions.get(name.as_str()) {
                None => Ok(()),
                Some(target) => {
                    if holds_checked(&scope.visiting, name.as_str(), inside) || depth == 0 {
                        return Ok(());
                    }
                    let ghost before = scope.in_progress();
                    scope.visiting.push(Checked { name: name.clone(), inside });
                    assert(scope.in_progress() =~= before.push((name@, inside)));
                    match check_restrictions(target, inside, definitions, scope, depth - 1) {
                        Err(error) => Err(error),
                        Ok(_) => {
                            let ghost inner = scope.in_progress();
                            let ghost done = scope.done();
                            scope.visiting.pop();
                            assert(scope.in_progress() =~= inner.drop_last());
                            assert(scope.in_progress() =~= before);
                            scope.passed.push(Checked { name: name.clone(), inside });
                            assert(scope.done() =~= done.push((name@, inside)));
                            Ok(())
                        },
                    }
                },
            }
        },
        Pattern::Attribute { name, body, context } => {
            if inside.list {
                return Err(
                    SchemaError::new("RELAX NG §7.1.3: a list pattern cannot contain attribute"),
                );
            }
            if inside.attribute {
                return Err(
                    SchemaError::new(
                        "RELAX NG §7.1.1: an attribute pattern cannot contain an attribute",
                    ),
                );
            }
            if inside.container {
                return Err(
                    SchemaError::new(
                        "RELAX NG §7.1.2: a oneOrMore pattern cannot wrap a group/interleave containing an attribute",
                    ),
                );
            }
            if name_class_has_infinite_names(name) && !inside.one_or_more {
                return Err(
                    SchemaError::new(
                        "RELAX NG §7.3: an attribute with an anyName or nsName name class must have a oneOrMore ancestor",
                    ),
                );
            }
            check_all_restrictions(
                body,
                Inside { attribute: true, ..inside },
                definitions,
                scope,
                depth,
            )
        },
        Pattern::List(values) => {
            if inside.list {
                return Err(
                    SchemaError::new("RELAX NG §7.1.3: a list pattern cannot contain list"),
                );
            }
            check_all_restrictions(
                values,
                Inside { list: true, ..inside },
                definitions,
                scope,
                depth,
            )
        },
        Pattern::Interleave(values) => {
            if inside.list {
                return Err(
                    SchemaError::new("RELAX NG §7.1.3: a list pattern cannot contain interleave"),
                );
            }
            check_all_restrictions(
                values,
                Inside { container: inside.container || inside.one_or_more, ..inside },
                definitions,
                scope,
                depth,
            )
        },
        Pattern::Text => {
            if inside.list {
                return Err(
                    SchemaError::new("RELAX NG §7.1.3: a list pattern cannot contain text"),
                );
            }
            Ok(())
        },
        Pattern::Element { name, body, context } => {
            if inside.attribute {
                return Err(
                    SchemaError::new(
                        "RELAX NG §7.1.1: an attribute pattern cannot contain an element",
                    ),
                );
            }
            if inside.list {
                return Err(
                    SchemaError::new("RELAX NG §7.1.3: a list pattern cannot contain element"),
                );
            }
            let nothing = Inside {
                attribute: false,
                list: false,
                one_or_more: false,
                container: false,
            };
            check_all_restrictions(body, nothing, definitions, scope, depth)
        },
        Pattern::OneOrMore(values) => check_all_restrictions(
            values,
            Inside { one_or_more: true, ..inside },
            definitions,
            scope,
            depth,
        ),
        Pattern::ZeroOrMore(values) => check_all_restrictions(
            values,
            Inside { one_or_more: true, ..inside },
            definitions,
            scope,
            depth,
        ),
        Pattern::Group(values) => check_all_restrictions(
            values,
            Inside { container: inside.container || inside.one_or_more, ..inside },
            definitions,
            scope,
            depth,
        ),
        Pattern::Choice(values) => check_all_restrictions(
            values,
            inside,
            definitions,
            scope,
            depth,
        ),
        Pattern::Optional(values) => check_all_restrictions(
            values,
            inside,
            definitions,
            scope,
            depth,
        ),
        Pattern::Mixed(values) => check_all_restrictions(
            values,
            inside,
            definitions,
            scope,
            depth,
        ),
        Pattern::Data { datatype, datatype_library, params, except, context } =>
            check_all_except_restrictions(except),
        _ => Ok(()),
    }
}

/// Checks each pattern in turn; see [`restrict_all`].
fn check_all_restrictions(
    values: &Vec<Pattern>,
    inside: Inside,
    definitions: &Definitions,
    scope: &mut RestrictionScope,
    depth: u64,
) -> (r: Result<(), SchemaError>)
    ensures
        match r {
            Ok(_) => restrict_all(
                patterns_of(values@),
                inside,
                definitions@,
                old(scope).in_progress(),
                old(scope).done(),
                depth as nat,
                values@.len(),
            ) == Ok::<Passed, Text>(final(scope).done()) && final(scope).in_progress() == old(
                scope,
            ).in_progress(),
            Err(error) => restrict_all(
                patterns_of(values@),
                inside,
                definitions@,
                old(scope).in_progress(),
                old(scope).done(),
                depth as nat,
                values@.len(),
            ) == Err::<Passed, Text>(error@),
        },
    decreases depth, values,
{
    let ghost models = patterns_of(values@);
    let ghost visiting = scope.in_progress();
    let ghost passed = scope.done();
    let mut i: usize = 0;
    while i < values.len()
        invariant
            i <= values.len(),
            models == patterns_of(values@),
            visiting == old(scope).in_progress(),
            passed == old(scope).done(),
            scope.in_progress() == visiting,
            restrict_all(
                models,
                inside,
                definitions@,
                visiting,
                passed,
                depth as nat,
                i as nat,
            ) == Ok::<Passed, Text>(scope.done()),
        decreases values.len() - i,
    {
        let result = check_restrictions(&values[i], inside, definitions, scope, depth);
        if result.is_err() {
            proof {
                lemma_restrict_all_first(
                    models,
                    inside,
                    definitions@,
                    visiting,
                    passed,
                    depth as nat,
                    (i + 1) as nat,
                );
            }
            return result;
        }
        i += 1;
    }
    Ok(())
}

/// The first complaint of a prefix is that of all.
proof fn lemma_restrict_all_first(
    s: Seq<PatternModel>,
    inside: Inside,
    defs: Defs,
    visiting: Passed,
    passed: Passed,
    depth: nat,
    n: nat,
)
    requires
        n <= s.len(),
        restrict_all(s, inside, defs, visiting, passed, depth, n) is Err,
    ensures
        restrict_all(s, inside, defs, visiting, passed, depth, s.len()) == restrict_all(
            s,
            inside,
            defs,
            visiting,
            passed,
            depth,
            n,
        ),
    decreases s.len() - n,
{
    if n < s.len() {
        lemma_restrict_all_first(s, inside, defs, visiting, passed, depth, n + 1);
    }
}

/// Checks an exception of a datatype; see [`except_problem`].
pub fn check_except_restrictions(pattern: &Pattern) -> (r: Result<(), SchemaError>)
    ensures
        verdict(r) == except_problem(pattern@),
    decreases pattern,
{
    proof {
        pattern.lemma_model();
    }
    match pattern {
        Pattern::Data { datatype, datatype_library, params, except, context } =>
            check_all_except_restrictions(except),
        Pattern::Value { value, datatype, datatype_library, namespace, context } => Ok(()),
        Pattern::Choice(values) => check_all_except_restrictions(values),
        _ => Err(
            SchemaError::new(
                "RELAX NG §7.1.4: a data/except pattern may only contain data, value or choice",
            ),
        ),
    }
}

/// Checks each exception of a datatype.
fn check_all_except_restrictions(values: &Vec<Pattern>) -> (r: Result<(), SchemaError>)
    ensures
        verdict(r) == except_problems(patterns_of(values@), values@.len()),
    decreases values,
{
    let ghost models = patterns_of(values@);
    let mut i: usize = 0;
    while i < values.len()
        invariant
            i <= values.len(),
            models == patterns_of(values@),
            except_problems(models, i as nat) is None,
        decreases values.len() - i,
    {
        let result = check_except_restrictions(&values[i]);
        if result.is_err() {
            proof {
                lemma_except_first(models, (i + 1) as nat);
            }
            return result;
        }
        i += 1;
    }
    Ok(())
}

/// The first complaint of a prefix is that of all.
proof fn lemma_except_first(s: Seq<PatternModel>, n: nat)
    requires
        n <= s.len(),
        except_problems(s, n) is Some,
    ensures
        except_problems(s, s.len()) == except_problems(s, n),
    decreases s.len() - n,
{
    if n < s.len() {
        lemma_except_first(s, n + 1);
    }
}

/// Checks what a schema may start with; see [`start_problem`].
pub fn check_start_restrictions(
    pattern: &Pattern,
    definitions: &Definitions,
    visiting: &mut Vec<String>,
    depth: u64,
) -> (r: Result<(), SchemaError>)
    ensures
        verdict(r) == start_problem(
            pattern@,
            definitions@,
            texts(old(visiting)@),
            depth as nat,
        ),
        r is Ok ==> texts(final(visiting)@) == texts(old(visiting)@),
    decreases depth, pattern,
{
    proof {
        pattern.lemma_model();
    }
    match pattern {
        Pattern::Choice(values) => check_all_start_restrictions(
            values,
            definitions,
            visiting,
            depth,
        ),
        Pattern::Ref(name) => match definitions.get(name.as_str()) {
            None => Ok(()),
            Some(target) => {
                if holds(visiting, name.as_str()) || depth == 0 {
                    return Ok(());
                }
                let ghost before = texts(visiting@);
                visiting.push(name.clone());
                assert(texts(visiting@) =~= before.push(name@));
                let result = check_start_restrictions(target, definitions, visiting, depth - 1);
                if result.is_err() {
                    return result;
                }
                let ghost inner = texts(visiting@);
                visiting.pop();
                assert(texts(visiting@) =~= inner.drop_last());
                assert(texts(visiting@) =~= before);
                Ok(())
            },
        },
        Pattern::Attribute { name, body, context } => Err(
            SchemaError::new("RELAX NG §7.1.5: start cannot contain attribute"),
        ),
        Pattern::Data { datatype, datatype_library, params, except, context } => Err(
            SchemaError::new("RELAX NG §7.1.5: start cannot contain data"),
        ),
        Pattern::Value { value, datatype, datatype_library, namespace, context } => Err(
            SchemaError::new("RELAX NG §7.1.5: start cannot contain value"),
        ),
        Pattern::Text => Err(SchemaError::new("RELAX NG §7.1.5: start cannot contain text")),
        Pattern::List(values) => Err(
            SchemaError::new("RELAX NG §7.1.5: start cannot contain list"),
        ),
        Pattern::Group(values) => Err(
            SchemaError::new("RELAX NG §7.1.5: start cannot contain group"),
        ),
        Pattern::Interleave(values) => Err(
            SchemaError::new("RELAX NG §7.1.5: start cannot contain interleave"),
        ),
        Pattern::OneOrMore(values) => Err(
            SchemaError::new("RELAX NG §7.1.5: start cannot contain oneOrMore"),
        ),
        Pattern::Empty => Err(SchemaError::new("RELAX NG §7.1.5: start cannot contain empty")),
        _ => Ok(()),
    }
}

/// Checks each alternative of a start.
fn check_all_start_restrictions(
    values: &Vec<Pattern>,
    definitions: &Definitions,
    visiting: &mut Vec<String>,
    depth: u64,
) -> (r: Result<(), SchemaError>)
    ensures
        verdict(r) == start_problems(
            patterns_of(values@),
            definitions@,
            texts(old(visiting)@),
            depth as nat,
            values@.len(),
        ),
        r is Ok ==> texts(final(visiting)@) == texts(old(visiting)@),
    decreases depth, values,
{
    let ghost models = patterns_of(values@);
    let ghost before = texts(visiting@);
    let mut i: usize = 0;
    while i < values.len()
        invariant
            i <= values.len(),
            models == patterns_of(values@),
            before == texts(old(visiting)@),
            texts(visiting@) == before,
            start_problems(models, definitions@, before, depth as nat, i as nat) is None,
        decreases values.len() - i,
    {
        let result = check_start_restrictions(&values[i], definitions, visiting, depth);
        if result.is_err() {
            proof {
                lemma_start_first(models, definitions@, before, depth as nat, (i + 1) as nat);
            }
            return result;
        }
        i += 1;
    }
    Ok(())
}

/// The first complaint of a prefix is that of all.
proof fn lemma_start_first(
    s: Seq<PatternModel>,
    defs: Defs,
    visiting: Seq<Text>,
    depth: nat,
    n: nat,
)
    requires
        n <= s.len(),
        start_problems(s, defs, visiting, depth, n) is Some,
    ensures
        start_problems(s, defs, visiting, depth, s.len()) == start_problems(
            s,
            defs,
            visiting,
            depth,
            n,
        ),
    decreases s.len() - n,
{
    if n < s.len() {
        lemma_start_first(s, defs, visiting, depth, n + 1);
    }
}

// ---------------------------------------------------------------------
// The functions: what may stand beside what
// ---------------------------------------------------------------------

/// What an operand of a group or an interleave holds; see [`Holdings`].
pub struct Occurrences {
    attributes: Vec<NameClass>,
    elements: Vec<NameClass>,
    has_text: bool,
    child_capable: bool,
    string_capable: bool,
}

impl View for Occurrences {
    type V = Holdings;

    closed spec fn view(&self) -> Holdings {
        Holdings {
            attributes: names_of(self.attributes@),
            elements: names_of(self.elements@),
            has_text: self.has_text,
            child_capable: self.child_capable,
            string_capable: self.string_capable,
        }
    }
}

/// Adds what a pattern holds; see [`held`].
pub fn collect_occurrences(
    pattern: &Pattern,
    definitions: &Definitions,
    visiting: &mut Vec<String>,
    out: &mut Occurrences,
    depth: u64,
)
    ensures
        final(out)@ == held(
            pattern@,
            definitions@,
            texts(old(visiting)@),
            old(out)@,
            depth as nat,
        ),
        texts(final(visiting)@) == texts(old(visiting)@),
    decreases depth, pattern,
{
    let ghost before = out@;
    proof {
        pattern.lemma_model();
    }
    match pattern {
        Pattern::Attribute { name, body, context } => {
            let class = copy_name(name);
            out.attributes.push(class);
            assert(names_of(out.attributes@) =~= before.attributes.push(class@));
        },
        Pattern::Element { name, body, context } => {
            let class = copy_name(name);
            out.elements.push(class);
            assert(names_of(out.elements@) =~= before.elements.push(class@));
            out.child_capable = true;
        },
        Pattern::Text => {
            out.has_text = true;
            out.child_capable = true;
        },
        Pattern::Data { datatype, datatype_library, params, except, context } => {
            out.child_capable = true;
            out.string_capable = true;
        },
        Pattern::Value { value, datatype, datatype_library, namespace, context } => {
            out.child_capable = true;
            out.string_capable = true;
        },
        Pattern::List(values) => {
            out.child_capable = true;
            out.string_capable = true;
        },
        Pattern::Ref(name) => match definitions.get(name.as_str()) {
            None => {},
            Some(target) => {
                if !holds(visiting, name.as_str()) && depth > 0 {
                    let ghost outer = texts(visiting@);
                    visiting.push(name.clone());
                    assert(texts(visiting@) =~= outer.push(name@));
                    collect_occurrences(target, definitions, visiting, out, depth - 1);
                    let ghost inner = texts(visiting@);
                    visiting.pop();
                    assert(texts(visiting@) =~= inner.drop_last());
                    assert(texts(visiting@) =~= outer);
                }
            },
        },
        Pattern::Group(values) => {
            collect_all_occurrences(values, definitions, visiting, out, depth);
        },
        Pattern::Choice(values) => {
            collect_all_occurrences(values, definitions, visiting, out, depth);
        },
        Pattern::Interleave(values) => {
            collect_all_occurrences(values, definitions, visiting, out, depth);
        },
        Pattern::Optional(values) => {
            collect_all_occurrences(values, definitions, visiting, out, depth);
        },
        Pattern::ZeroOrMore(values) => {
            collect_all_occurrences(values, definitions, visiting, out, depth);
        },
        Pattern::OneOrMore(values) => {
            collect_all_occurrences(values, definitions, visiting, out, depth);
        },
        Pattern::Mixed(values) => {
            collect_all_occurrences(values, definitions, visiting, out, depth);
        },
        _ => {},
    }
}

/// Adds what each pattern holds.
fn collect_all_occurrences(
    values: &Vec<Pattern>,
    definitions: &Definitions,
    visiting: &mut Vec<String>,
    out: &mut Occurrences,
    depth: u64,
)
    ensures
        final(out)@ == held_all(
            patterns_of(values@),
            definitions@,
            texts(old(visiting)@),
            old(out)@,
            depth as nat,
            values@.len(),
        ),
        texts(final(visiting)@) == texts(old(visiting)@),
    decreases depth, values,
{
    let ghost models = patterns_of(values@);
    let ghost outer = texts(visiting@);
    let ghost before = out@;
    let mut i: usize = 0;
    while i < values.len()
        invariant
            i <= values.len(),
            models == patterns_of(values@),
            outer == texts(visiting@),
            out@ == held_all(models, definitions@, outer, before, depth as nat, i as nat),
        decreases values.len() - i,
    {
        collect_occurrences(&values[i], definitions, visiting, out, depth);
        i += 1;
    }
}

/// Whether some name class of the one has a name in common with some of the other.
fn any_overlap(a: &Vec<NameClass>, b: &Vec<NameClass>) -> (r: bool)
    ensures
        r == some_overlap(names_of(a@), names_of(b@)),
{
    let ghost x = names_of(a@);
    let ghost y = names_of(b@);
    let mut i: usize = 0;
    while i < a.len()
        invariant
            i <= a.len(),
            x == names_of(a@),
            y == names_of(b@),
            forall|k: int, l: int|
                0 <= k < i && 0 <= l < y.len() ==> !overlap(#[trigger] x[k], #[trigger] y[l]),
        decreases a.len() - i,
    {
        let mut j: usize = 0;
        while j < b.len()
            invariant
                i < a.len(),
                j <= b.len(),
                x == names_of(a@),
                y == names_of(b@),
                forall|l: int| 0 <= l < j ==> !overlap(x[i as int], #[trigger] y[l]),
            decreases b.len() - j,
        {
            if name_classes_overlap(&a[i], &b[j]) {
                assert(overlap(x[i as int], y[j as int]));
                return true;
            }
            j += 1;
        }
        i += 1;
    }
    false
}

/// Checks two operands of one group or interleave; see [`pair_problem`].
fn check_pair(left: &Occurrences, right: &Occurrences, is_interleave: bool) -> (r: Result<
    (),
    SchemaError,
>)
    ensures
        verdict(r) == pair_problem(left@, right@, is_interleave),
{
    if (left.child_capable && right.string_capable) || (left.string_capable
        && right.child_capable) {
        return Err(
            SchemaError::new(
                "RELAX NG §7.2: a pattern matching a child and a pattern matching a single string must be alternatives",
            ),
        );
    }
    if any_overlap(&left.attributes, &right.attributes) {
        return Err(
            SchemaError::new(
                "RELAX NG §7.3: a group/interleave must not allow two attributes with the same name",
            ),
        );
    }
    if is_interleave {
        if left.has_text && right.has_text {
            return Err(
                SchemaError::new(
                    "RELAX NG §7.4: a text pattern must not occur on both sides of an interleave",
                ),
            );
        }
        if any_overlap(&left.elements, &right.elements) {
            return Err(
                SchemaError::new(
                    "RELAX NG §7.4: an interleave must not allow overlapping element names on both sides",
                ),
            );
        }
    }
    Ok(())
}

/// Checks the operands of a group or interleave against one another; see
/// [`operands_problem`].
pub fn check_pairwise(
    values: &Vec<Pattern>,
    definitions: &Definitions,
    is_interleave: bool,
    depth: u64,
) -> (r: Result<(), SchemaError>)
    ensures
        verdict(r) == operands_problem(
            patterns_of(values@),
            definitions@,
            is_interleave,
            depth as nat,
        ),
{
    let ghost models = patterns_of(values@);
    let ghost all = holdings_of(models, definitions@, depth as nat);
    let mut occurrences: Vec<Occurrences> = Vec::new();
    let mut k: usize = 0;
    while k < values.len()
        invariant
            k <= values.len(),
            models == patterns_of(values@),
            all == holdings_of(models, definitions@, depth as nat),
            occurrences.len() == k,
            forall|j: int| 0 <= j < k ==> (#[trigger] occurrences@[j])@ == all[j],
        decreases values.len() - k,
    {
        let mut out = Occurrences {
            attributes: Vec::new(),
            elements: Vec::new(),
            has_text: false,
            child_capable: false,
            string_capable: false,
        };
        let mut visiting: Vec<String> = Vec::new();
        assert(out@ =~= nothing_held());
        assert(texts(visiting@) =~= Seq::<Text>::empty());
        collect_occurrences(&values[k], definitions, &mut visiting, &mut out, depth);
        assert(out@ == all[k as int]);
        occurrences.push(out);
        k += 1;
    }
    let mut i: usize = 0;
    while i < occurrences.len()
        invariant
            i <= occurrences.len(),
            occurrences.len() == values.len(),
            models == patterns_of(values@),
            all == holdings_of(models, definitions@, depth as nat),
            forall|j: int|
                0 <= j < occurrences.len() ==> (#[trigger] occurrences@[j])@ == all[j],
            rows_problem(all, is_interleave, i as nat) is None,
        decreases occurrences.len() - i,
    {
        let mut j: usize = 0;
        while j < occurrences.len()
            invariant
                i < occurrences.len(),
                j <= occurrences.len(),
                occurrences.len() == values.len(),
                models == patterns_of(values@),
                all == holdings_of(models, definitions@, depth as nat),
                forall|j: int|
                    0 <= j < occurrences.len() ==> (#[trigger] occurrences@[j])@ == all[j],
                rows_problem(all, is_interleave, i as nat) is None,
                row_problem(all, i as int, is_interleave, j as nat) is None,
            decreases occurrences.len() - j,
        {
            if i < j {
                let result = check_pair(&occurrences[i], &occurrences[j], is_interleave);
                if result.is_err() {
                    proof {
                        lemma_row_first(all, i as int, is_interleave, (j + 1) as nat);
                        lemma_rows_first(all, is_interleave, (i + 1) as nat);
                    }
                    return result;
                }
            }
            j += 1;
        }
        i += 1;
    }
    Ok(())
}

/// The first complaint of a prefix is that of all.
proof fn lemma_row_first(s: Seq<Holdings>, i: int, is_interleave: bool, n: nat)
    requires
        n <= s.len(),
        row_problem(s, i, is_interleave, n) is Some,
    ensures
        row_problem(s, i, is_interleave, s.len()) == row_problem(s, i, is_interleave, n),
    decreases s.len() - n,
{
    if n < s.len() {
        lemma_row_first(s, i, is_interleave, n + 1);
    }
}

/// The first complaint of a prefix is that of all.
proof fn lemma_rows_first(s: Seq<Holdings>, is_interleave: bool, n: nat)
    requires
        n <= s.len(),
        rows_problem(s, is_interleave, n) is Some,
    ensures
        rows_problem(s, is_interleave, s.len()) == rows_problem(s, is_interleave, n),
    decreases s.len() - n,
{
    if n < s.len() {
        lemma_rows_first(s, is_interleave, n + 1);
    }
}

/// Checks the groups and interleaves of a pattern; see [`groups_problem`].
pub fn check_group_restrictions(pattern: &Pattern, definitions: &Definitions, depth: u64) -> (r:
    Result<(), SchemaError>)
    ensures
        verdict(r) == groups_problem(pattern@, definitions@, depth as nat),
    decreases pattern,
{
    proof {
        pattern.lemma_model();
    }
    match pattern {
        Pattern::Group(values) => {
            let result = check_pairwise(values, definitions, false, depth);
            if result.is_err() {
                return result;
            }
            check_all_group_restrictions(values, definitions, depth)
        },
        Pattern::Interleave(values) => {
            let result = check_pairwise(values, definitions, true, depth);
            if result.is_err() {
                return result;
            }
            check_all_group_restrictions(values, definitions, depth)
        },
        Pattern::Element { name, body, context } => check_all_group_restrictions(
            body,
            definitions,
            depth,
        ),
        Pattern::Attribute { name, body, context } => check_all_group_restrictions(
            body,
            definitions,
            depth,
        ),
        Pattern::Choice(values) => check_all_group_restrictions(values, definitions, depth),
        Pattern::Optional(values) => check_all_group_restrictions(values, definitions, depth),
        Pattern::ZeroOrMore(values) => check_all_group_restrictions(values, definitions, depth),
        Pattern::OneOrMore(values) => check_all_group_restrictions(values, definitions, depth),
        Pattern::Mixed(values) => check_all_group_restrictions(values, definitions, depth),
        _ => Ok(()),
    }
}

/// Checks the groups and interleaves of each pattern.
fn check_all_group_restrictions(values: &Vec<Pattern>, definitions: &Definitions, depth: u64) -> (r:
    Result<(), SchemaError>)
    ensures
        verdict(r) == all_groups_problem(
            patterns_of(values@),
            definitions@,
            depth as nat,
            values@.len(),
        ),
    decreases values,
{
    let ghost models = patterns_of(values@);
    let mut i: usize = 0;
    while i < values.len()
        invariant
            i <= values.len(),
            models == patterns_of(values@),
            all_groups_problem(models, definitions@, depth as nat, i as nat) is None,
        decreases values.len() - i,
    {
        let result = check_group_restrictions(&values[i], definitions, depth);
        if result.is_err() {
            proof {
                lemma_groups_first(models, definitions@, depth as nat, (i + 1) as nat);
            }
            return result;
        }
        i += 1;
    }
    Ok(())
}

/// The first complaint of a prefix is that of all.
proof fn lemma_groups_first(s: Seq<PatternModel>, defs: Defs, depth: nat, n: nat)
    requires
        n <= s.len(),
        all_groups_problem(s, defs, depth, n) is Some,
    ensures
        all_groups_problem(s, defs, depth, s.len()) == all_groups_problem(s, defs, depth, n),
    decreases s.len() - n,
{
    if n < s.len() {
        lemma_groups_first(s, defs, depth, n + 1);
    }
}

/// The complaint about a datatype of the built-in library: it has only `string` and
/// `token`, and neither takes parameters.
pub open spec fn builtin_problem(
    datatype: Text,
    datatype_library: Option<Text>,
    has_params: bool,
) -> Option<Text> {
    if datatype_library != Some(Seq::<char>::empty()) {
        None
    } else if datatype != "string"@ && datatype != "token"@ {
        Some(
            "RELAX NG §4.16: `"@ + datatype
                + "` is not a datatype of the built-in (empty) datatype library"@,
        )
    } else if has_params {
        Some(
            "RELAX NG §4.16: the built-in (empty) datatype library's datatypes take no parameters"@,
        )
    } else {
        None
    }
}

/// Checks a datatype of the built-in library, where that is given explicitly.
pub fn check_builtin_datatype_constraints(
    datatype: &str,
    datatype_library: &Option<String>,
    has_params: bool,
) -> (r: Result<(), SchemaError>)
    ensures
        verdict(r) == builtin_problem(datatype@, opt_text(*datatype_library), has_params),
{
    proof {
        reveal_strlit("");
        assert(""@ =~= Seq::<char>::empty());
    }
    let built_in = match datatype_library {
        Some(library) => same(library.as_str(), ""),
        None => false,
    };
    if !built_in {
        return Ok(());
    }
    if !same(datatype, "string") && !same(datatype, "token") {
        return Err(
            SchemaError::from_string(
                concat3(
                    "RELAX NG §4.16: `",
                    datatype,
                    "` is not a datatype of the built-in (empty) datatype library",
                ),
            ),
        );
    }
    if has_params {
        return Err(
            SchemaError::new(
                "RELAX NG §4.16: the built-in (empty) datatype library's datatypes take no parameters",
            ),
        );
    }
    Ok(())
}

} // verus!
