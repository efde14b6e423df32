//! References between named patterns: which are reachable, and that none of them reaches
//! itself without an element in between.
use vstd::prelude::*;

use crate::derivative::{Definitions, Defs, MAX_DEPTH};
use crate::grammar::{patterns_of, Pattern, PatternModel};
use crate::simplify::{verdict, SchemaError};
use crate::string_map::{has_key, inserted, lookup, StringMap};
use crate::text::{concat3, texts, Text};

verus! {

/// A set of names, in increasing order.
pub type Names = Seq<(Text, ())>;

/// The names reached from a pattern through references, elements crossed freely, added to
/// those reached already.
pub open spec fn reached(p: PatternModel, defs: Defs, seen: Names, depth: nat) -> Names
    decreases depth, p, 0nat,
{
    match p {
        PatternModel::Ref(name) => match lookup(defs, name) {
            Some(target) => if has_key(seen, name) || depth == 0 {
                seen
            } else {
                reached(target, defs, inserted(seen, name, ()), (depth - 1) as nat)
            },
            None => seen,
        },
        PatternModel::Element { name, body, context } => reached_all(
            body,
            defs,
            seen,
            depth,
            body.len(),
        ),
        PatternModel::Attribute { name, body, context } => reached_all(
            body,
            defs,
            seen,
            depth,
            body.len(),
        ),
        PatternModel::Group(values) => reached_all(values, defs, seen, depth, values.len()),
        PatternModel::Interleave(values) => reached_all(values, defs, seen, depth, values.len()),
        PatternModel::Choice(values) => reached_all(values, defs, seen, depth, values.len()),
        PatternModel::OneOrMore(values) => reached_all(values, defs, seen, depth, values.len()),
        PatternModel::List(values) => reached_all(values, defs, seen, depth, values.len()),
        PatternModel::Optional(values) => reached_all(values, defs, seen, depth, values.len()),
        PatternModel::ZeroOrMore(values) => reached_all(values, defs, seen, depth, values.len()),
        PatternModel::Mixed(values) => reached_all(values, defs, seen, depth, values.len()),
        PatternModel::Data { datatype, datatype_library, params, except, context } => reached_all(
            except,
            defs,
            seen,
            depth,
            except.len(),
        ),
        _ => seen,
    }
}

/// The names reached from the first `n` patterns.
pub open spec fn reached_all(s: Seq<PatternModel>, defs: Defs, seen: Names, depth: nat, n: nat) -> Names
    decreases depth, s, n,
{
    if n == 0 || n > s.len() {
        seen
    } else {
        reached(
            s[n - 1],
            defs,
            reached_all(s, defs, seen, depth, (n - 1) as nat),
            depth,
        )
    }
}

/// The names that a pattern refers to without an element in between, in order.
pub open spec fn ref_edges(p: PatternModel) -> Seq<Text>
    decreases p, 0nat,
{
    match p {
        PatternModel::Ref(name) => seq![name],
        PatternModel::Attribute { name, body, context } => all_ref_edges(body, body.len()),
        PatternModel::List(values) => all_ref_edges(values, values.len()),
        PatternModel::Group(values) => all_ref_edges(values, values.len()),
        PatternModel::Interleave(values) => all_ref_edges(values, values.len()),
        PatternModel::Choice(values) => all_ref_edges(values, values.len()),
        PatternModel::OneOrMore(values) => all_ref_edges(values, values.len()),
        PatternModel::Optional(values) => all_ref_edges(values, values.len()),
        PatternModel::ZeroOrMore(values) => all_ref_edges(values, values.len()),
        PatternModel::Mixed(values) => all_ref_edges(values, values.len()),
        _ => Seq::empty(),
    }
}

/// The names that the first `n` patterns refer to without an element in between.
pub open spec fn all_ref_edges(s: Seq<PatternModel>, n: nat) -> Seq<Text>
    decreases s, n,
{
    if n == 0 || n > s.len() {
        Seq::empty()
    } else {
        all_ref_edges(s, (n - 1) as nat) + ref_edges(s[n - 1])
    }
}

/// The names that a named pattern refers to without an element in between.
pub open spec fn edges_of(defs: Defs, name: Text) -> Seq<Text> {
    match lookup(defs, name) {
        Some(pattern) => ref_edges(pattern),
        None => Seq::empty(),
    }
}

/// How far the search has come with a name.
#[derive(Clone, Copy, Debug, PartialEq, Eq, Structural)]
pub enum RefVisit {
    /// The search is inside what it refers to.
    Visiting,
    /// The search is through with it.
    Done,
}

impl View for RefVisit {
    type V = RefVisit;

    open spec fn view(&self) -> RefVisit {
        *self
    }
}

/// How far the search has come, by name.
pub type Visits = Seq<(Text, RefVisit)>;

/// The complaint about a name that refers to itself.
pub open spec fn recursion_complaint(name: Text) -> Text {
    "RELAX NG §4.19: `"@ + name
        + "` illegally refers to itself without an intervening element"@
}

/// The search from a name: it is inside the name until everything that the name refers to
/// is done.
pub open spec fn visit(name: Text, names: Names, defs: Defs, state: Visits, depth: nat) -> Result<
    Visits,
    Text,
>
    decreases depth, 1nat, 0nat,
{
    match visit_edges(
        edges_of(defs, name),
        names,
        defs,
        inserted(state, name, RefVisit::Visiting),
        depth,
        edges_of(defs, name).len(),
    ) {
        Err(message) => Err(message),
        Ok(after) => Ok(inserted(after, name, RefVisit::Done)),
    }
}

/// The search along the first `n` references.
pub open spec fn visit_edges(
    edges: Seq<Text>,
    names: Names,
    defs: Defs,
    state: Visits,
    depth: nat,
    n: nat,
) -> Result<Visits, Text>
    decreases depth, 0nat, n,
{
    if n == 0 || n > edges.len() {
        Ok(state)
    } else {
        match visit_edges(edges, names, defs, state, depth, (n - 1) as nat) {
            Err(message) => Err(message),
            Ok(before) => match lookup(before, edges[n - 1]) {
                Some(RefVisit::Visiting) => Err(recursion_complaint(edges[n - 1])),
                Some(RefVisit::Done) => Ok(before),
                None => if has_key(names, edges[n - 1]) && depth > 0 {
                    visit(edges[n - 1], names, defs, before, (depth - 1) as nat)
                } else {
                    Ok(before)
                },
            },
        }
    }
}

/// The search from each of the first `n` names that it has not come to yet.
pub open spec fn visit_all(names: Names, defs: Defs, depth: nat, n: nat) -> Result<Visits, Text>
    decreases n,
{
    if n == 0 || n > names.len() {
        Ok(Seq::empty())
    } else {
        match visit_all(names, defs, depth, (n - 1) as nat) {
            Err(message) => Err(message),
            Ok(before) => if has_key(before, names[n - 1].0) {
                Ok(before)
            } else {
                visit(names[n - 1].0, names, defs, before, depth)
            },
        }
    }
}

/// The complaint about a named pattern, reached from the start, that reaches itself without
/// an element in between.
pub open spec fn recursion_problem(start: PatternModel, defs: Defs, depth: nat) -> Option<Text> {
    let names = reached(start, defs, Seq::empty(), depth);
    match visit_all(names, defs, depth, names.len()) {
        Err(message) => Some(message),
        Ok(_) => None,
    }
}

/// Adds the names reached from a pattern; see [`reached`].
pub fn collect_reachable_defines(
    pattern: &Pattern,
    definitions: &Definitions,
    reachable: &mut StringMap<()>,
    depth: u64,
)
    ensures
        final(reachable)@ == reached(pattern@, definitions@, old(reachable)@, depth as nat),
    decreases depth, pattern,
{
    proof {
        pattern.lemma_model();
    }
    match pattern {
        Pattern::Ref(name) => {
            match definitions.get(name.as_str()) {
                Some(target) => {
                    if !reachable.contains_key(name.as_str()) && depth > 0 {
                        reachable.insert(name.clone(), ());
                        collect_reachable_defines(target, definitions, reachable, depth - 1);
                    }
                },
                None => {},
            }
        },
        Pattern::Element { name, body, context } => {
            collect_all_reachable(body, definitions, reachable, depth);
        },
        Pattern::Attribute { name, body, context } => {
            collect_all_reachable(body, definitions, reachable, depth);
        },
        Pattern::Group(values) => {
            collect_all_reachable(values, definitions, reachable, depth);
        },
        Pattern::Interleave(values) => {
            collect_all_reachable(values, definitions, reachable, depth);
        },
        Pattern::Choice(values) => {
            collect_all_reachable(values, definitions, reachable, depth);
        },
        Pattern::OneOrMore(values) => {
            collect_all_reachable(values, definitions, reachable, depth);
        },
        Pattern::List(values) => {
            collect_all_reachable(values, definitions, reachable, depth);
        },
        Pattern::Optional(values) => {
            collect_all_reachable(values, definitions, reachable, depth);
        },
        Pattern::ZeroOrMore(values) => {
            collect_all_reachable(values, definitions, reachable, depth);
        },
        Pattern::Mixed(values) => {
            collect_all_reachable(values, definitions, reachable, depth);
        },
        Pattern::Data { datatype, datatype_library, params, except, context } => {
            collect_all_reachable(except, definitions, reachable, depth);
        },
        _ => {},
    }
}

/// Adds the names reached from each pattern.
fn collect_all_reachable(
    values: &Vec<Pattern>,
    definitions: &Definitions,
    reachable: &mut StringMap<()>,
    depth: u64,
)
    ensures
        final(reachable)@ == reached_all(
            patterns_of(values@),
            definitions@,
            old(reachable)@,
            depth as nat,
            values@.len(),
        ),
    decreases depth, values,
{
    let ghost models = patterns_of(values@);
    let ghost before = reachable@;
    let mut i: usize = 0;
    while i < values.len()
        invariant
            i <= values.len(),
            models == patterns_of(values@),
            reachable@ == reached_all(models, definitions@, before, depth as nat, i as nat),
        decreases values.len() - i,
    {
        collect_reachable_defines(&values[i], definitions, reachable, depth);
        i += 1;
    }
}

/// Appends the names that a pattern refers to without an element in between; see
/// [`ref_edges`].
pub fn collect_ref_edges(pattern: &Pattern, edges: &mut Vec<String>)
    ensures
        texts(final(edges)@) == texts(old(edges)@) + ref_edges(pattern@),
    decreases pattern,
{
    let ghost before = texts(edges@);
    proof {
        pattern.lemma_model();
        assert(before + Seq::<Text>::empty() =~= before);
    }
    match pattern {
        Pattern::Ref(name) => {
            edges.push(name.clone());
            assert(texts(edges@) =~= before + seq![name@]);
        },
        Pattern::Attribute { name, body, context } => {
            collect_all_ref_edges(body, edges);
        },
        Pattern::List(values) => {
            collect_all_ref_edges(values, edges);
        },
        Pattern::Group(values) => {
            collect_all_ref_edges(values, edges);
        },
        Pattern::Interleave(values) => {
            collect_all_ref_edges(values, edges);
        },
        Pattern::Choice(values) => {
            collect_all_ref_edges(values, edges);
        },
        Pattern::OneOrMore(values) => {
            collect_all_ref_edges(values, edges);
        },
        Pattern::Optional(values) => {
            collect_all_ref_edges(values, edges);
        },
        Pattern::ZeroOrMore(values) => {
            collect_all_ref_edges(values, edges);
        },
        Pattern::Mixed(values) => {
            collect_all_ref_edges(values, edges);
        },
        _ => {},
    }
}

/// Appends the names that each pattern refers to without an element in between.
fn collect_all_ref_edges(values: &Vec<Pattern>, edges: &mut Vec<String>)
    ensures
        texts(final(edges)@) == texts(old(edges)@) + all_ref_edges(
            patterns_of(values@),
            values@.len(),
        ),
    decreases values,
{
    let ghost models = patterns_of(values@);
    let ghost before = texts(edges@);
    let mut i: usize = 0;
    assert(before + Seq::<Text>::empty() =~= before);
    while i < values.len()
        invariant
            i <= values.len(),
            models == patterns_of(values@),
            texts(edges@) == before + all_ref_edges(models, i as nat),
        decreases values.len() - i,
    {
        collect_ref_edges(&values[i], edges);
        i += 1;
        assert(texts(edges@) =~= before + all_ref_edges(models, i as nat));
    }
}

/// Whether the result of a search is as stated.
spec fn searched(
    r: Result<(), SchemaError>,
    state: Visits,
    want: Result<Visits, Text>,
) -> bool {
    match r {
        Ok(_) => want == Ok::<Visits, Text>(state),
        Err(error) => want == Err::<Visits, Text>(error@),
    }
}

/// Searches from a name; see [`visit`].
fn visit_ref_graph(
    name: &str,
    names: &StringMap<()>,
    definitions: &Definitions,
    state: &mut StringMap<RefVisit>,
    depth: u64,
) -> (r: Result<(), SchemaError>)
    ensures
        searched(
            r,
            final(state)@,
            visit(name@, names@, definitions@, old(state)@, depth as nat),
        ),
    decreases depth,
{
    let ghost first = inserted(state@, name@, RefVisit::Visiting);
    state.insert(name.to_owned(), RefVisit::Visiting);
    let mut edges: Vec<String> = Vec::new();
    assert(texts(edges@) =~= Seq::<Text>::empty());
    match definitions.get(name) {
        Some(pattern) => {
            collect_ref_edges(pattern, &mut edges);
        },
        None => {},
    }
    let ghost all = edges_of(definitions@, name@);
    assert(texts(edges@) =~= all);
    let ghost want = visit(name@, names@, definitions@, old(state)@, depth as nat);
    let mut i: usize = 0;
    while i < edges.len()
        invariant
            i <= edges.len(),
            all == texts(edges@),
            all == edges_of(definitions@, name@),
            first == inserted(old(state)@, name@, RefVisit::Visiting),
            want == visit(name@, names@, definitions@, old(state)@, depth as nat),
            visit_edges(all, names@, definitions@, first, depth as nat, i as nat) == Ok::<
                Visits,
                Text,
            >(state@),
        decreases edges.len() - i,
    {
        let target = edges[i].as_str();
        assert(all[i as int] == target@);
        let known = match state.get(target) {
            Some(found) => Some(*found),
            None => None,
        };
        match known {
            Some(RefVisit::Visiting) => {
                proof {
                    lemma_visit_edges_first(
                        all,
                        names@,
                        definitions@,
                        first,
                        depth as nat,
                        (i + 1) as nat,
                    );
                }
                return Err(
                    SchemaError::from_string(
                        concat3(
                            "RELAX NG §4.19: `",
                            target,
                            "` illegally refers to itself without an intervening element",
                        ),
                    ),
                );
            },
            Some(RefVisit::Done) => {},
            None => {
                if names.contains_key(target) && depth > 0 {
                    let result = visit_ref_graph(target, names, definitions, state, depth - 1);
                    if result.is_err() {
                        proof {
                            lemma_visit_edges_first(
                                all,
                                names@,
                                definitions@,
                                first,
                                depth as nat,
                                (i + 1) as nat,
                            );
                        }
                        return result;
                    }
                }
            },
        }
        i += 1;
    }
    state.insert(name.to_owned(), RefVisit::Done);
    Ok(())
}

/// The first error of a prefix is that of all.
proof fn lemma_visit_edges_first(
    edges: Seq<Text>,
    names: Names,
    defs: Defs,
    state: Visits,
    depth: nat,
    n: nat,
)
    requires
        n <= edges.len(),
        visit_edges(edges, names, defs, state, depth, n) is Err,
    ensures
        visit_edges(edges, names, defs, state, depth, edges.len()) == visit_edges(
            edges,
            names,
            defs,
            state,
            depth,
            n,
        ),
    decreases edges.len() - n,
{
    if n < edges.len() {
        lemma_visit_edges_first(edges, names, defs, state, depth, n + 1);
    }
}

/// The first error of a prefix is that of all.
proof fn lemma_visit_all_first(names: Names, defs: Defs, depth: nat, n: nat)
    requires
        n <= names.len(),
        visit_all(names, defs, depth, n) is Err,
    ensures
        visit_all(names, defs, depth, names.len()) == visit_all(names, defs, depth, n),
    decreases names.len() - n,
{
    if n < names.len() {
        lemma_visit_all_first(names, defs, depth, n + 1);
    }
}

/// Checks that no named pattern reached from the start reaches itself again through a chain
/// of references without an element in between: that recursion would never ground out. A
/// self-referring pattern that is never used is not an error.
pub fn check_illegal_recursion(start: &Pattern, definitions: &Definitions) -> (r: Result<
    (),
    SchemaError,
>)
    ensures
        verdict(r) == recursion_problem(start@, definitions@, MAX_DEPTH as nat),
{
    let mut names: StringMap<()> = StringMap::new();
    collect_reachable_defines(start, definitions, &mut names, MAX_DEPTH);
    let mut state: StringMap<RefVisit> = StringMap::new();
    let mut i: usize = 0;
    while i < names.len()
        invariant
            i <= names@.len(),
            names@ == reached(start@, definitions@, Seq::empty(), MAX_DEPTH as nat),
            visit_all(names@, definitions@, MAX_DEPTH as nat, i as nat) == Ok::<Visits, Text>(
                state@,
            ),
        decreases names@.len() - i,
    {
        let name = names.key_at(i).clone();
        if !state.contains_key(name.as_str()) {
            let result = visit_ref_graph(
                name.as_str(),
                &names,
                definitions,
                &mut state,
                MAX_DEPTH,
            );
            if result.is_err() {
                proof {
                    lemma_visit_all_first(names@, definitions@, MAX_DEPTH as nat, (i + 1) as nat);
                }
                return result;
            }
        }
        i += 1;
    }
    Ok(())
}

} // verus!
