//! What the search for illegal recursion finds: it complains exactly where some named
//! pattern that the start reaches refers to itself, by way of others or not, without an
//! element in between.
use vstd::prelude::*;

use crate::compose::{lemma_operands, operands};
use crate::derivative::Defs;
use crate::grammar::PatternModel;
use crate::recursion::{
    edges_of, reached, reached_all, recursion_problem, visit, visit_all, visit_edges, Names,
    RefVisit, Visits,
};
use crate::string_map::{
    has_key, inserted, lemma_has_key_at, lemma_inserted, lemma_inserted_entries,
    lemma_lookup_index, lookup, sorted,
};
use crate::text::{lemma_text_lt_irreflexive, text_lt, Text};

verus! {

/// Whether one named pattern refers to another without an element in between.
pub open spec fn edge(defs: Defs, a: Text, b: Text) -> bool {
    edges_of(defs, a).contains(b)
}

/// Whether each name refers to the next without an element in between.
pub open spec fn path(defs: Defs, route: Seq<Text>) -> bool {
    route.len() > 0 && forall|i: int|
        0 <= i < route.len() - 1 ==> #[trigger] edge(defs, route[i], route[i + 1])
}

/// Whether a path goes round, through names among the given ones.
pub open spec fn cycle(defs: Defs, names: Names, route: Seq<Text>) -> bool {
    &&& route.len() >= 2
    &&& path(defs, route)
    &&& route[0] == route.last()
    &&& forall|i: int| 0 <= i < route.len() ==> has_key(names, #[trigger] route[i])
}

/// Whether names refer only to names of a lower rank.
pub open spec fn falls(defs: Defs, names: Names, rank: spec_fn(Text) -> nat) -> bool {
    forall|a: Text, b: Text|
        has_key(names, a) && has_key(names, b) && #[trigger] edge(defs, a, b) ==> rank(b) < rank(a)
}

// ---------------------------------------------------------------------
// The search finds every cycle
// ---------------------------------------------------------------------

/// Whether the search is through with a name.
spec fn done(state: Visits, name: Text) -> bool {
    lookup(state, name) == Some(RefVisit::Done)
}

/// Whether the names that the search is through with refer only to others of a lower rank.
spec fn ranked(state: Visits, names: Names, defs: Defs, rank: spec_fn(Text) -> nat) -> bool {
    forall|a: Text, b: Text|
        done(state, a) && has_key(names, b) && #[trigger] edge(defs, a, b) ==> done(state, b)
            && rank(b) < rank(a)
}

/// Whether such a rank exists.
spec fn rankable(state: Visits, names: Names, defs: Defs) -> bool {
    exists|rank: spec_fn(Text) -> nat| ranked(state, names, defs, rank)
}

/// The number of names, of the first `n`, that are not among others.
spec fn unvisited<A, B>(names: Seq<(Text, A)>, state: Seq<(Text, B)>, n: nat) -> nat
    decreases n,
{
    if n == 0 || n > names.len() {
        0
    } else {
        unvisited(names, state, (n - 1) as nat) + (if has_key(state, names[n - 1].0) {
            0nat
        } else {
            1nat
        })
    }
}

/// Whether a state is a later one: what was visited stays so, and the search is inside the
/// same names.
spec fn later(before: Visits, after: Visits) -> bool {
    &&& sorted(after)
    &&& forall|x: Text| done(before, x) ==> #[trigger] done(after, x)
    &&& forall|x: Text| #[trigger]
        lookup(after, x) == Some(RefVisit::Visiting) <==> lookup(before, x) == Some(
            RefVisit::Visiting,
        )
}

/// Visited names are no more than before in a later state.
proof fn lemma_unvisited_later<A, B>(
    names: Seq<(Text, A)>,
    before: Seq<(Text, B)>,
    after: Seq<(Text, B)>,
    n: nat,
)
    requires
        forall|x: Text| has_key(before, x) ==> #[trigger] has_key(after, x),
    ensures
        unvisited(names, after, n) <= unvisited(names, before, n),
    decreases n,
{
    if n == 0 || n > names.len() {
    } else {
        lemma_unvisited_later(names, before, after, (n - 1) as nat);
        assert(has_key(before, names[n - 1].0) ==> has_key(after, names[n - 1].0));
    }
}

/// Visiting a name leaves one less unvisited.
proof fn lemma_unvisited_less<A, B>(
    names: Seq<(Text, A)>,
    before: Seq<(Text, B)>,
    after: Seq<(Text, B)>,
    n: nat,
    k: int,
)
    requires
        forall|x: Text| has_key(before, x) ==> #[trigger] has_key(after, x),
        0 <= k < n <= names.len(),
        !has_key(before, names[k].0),
        has_key(after, names[k].0),
    ensures
        unvisited(names, after, n) < unvisited(names, before, n),
    decreases n,
{
    if k == n - 1 {
        lemma_unvisited_later(names, before, after, (n - 1) as nat);
    } else {
        lemma_unvisited_less(names, before, after, (n - 1) as nat, k);
        assert(has_key(before, names[n - 1].0) ==> has_key(after, names[n - 1].0));
    }
}

/// The sum of the ranks of the first `n` names.
spec fn rank_sum(edges: Seq<Text>, rank: spec_fn(Text) -> nat, n: nat) -> nat
    decreases n,
{
    if n == 0 || n > edges.len() {
        0
    } else {
        rank_sum(edges, rank, (n - 1) as nat) + rank(edges[n - 1])
    }
}

/// A rank is at most the sum.
proof fn lemma_rank_sum(edges: Seq<Text>, rank: spec_fn(Text) -> nat, n: nat, k: int)
    requires
        0 <= k < n <= edges.len(),
    ensures
        rank(edges[k]) <= rank_sum(edges, rank, n),
    decreases n,
{
    if k < n - 1 {
        lemma_rank_sum(edges, rank, (n - 1) as nat, k);
    }
}

/// A name of which all references are done can be ranked above them.
proof fn lemma_finish(state: Visits, name: Text, names: Names, defs: Defs)
    requires
        sorted(state),
        rankable(state, names, defs),
        !done(state, name),
        forall|b: Text| has_key(names, b) && #[trigger] edge(defs, name, b) ==> done(state, b),
    ensures
        rankable(inserted(state, name, RefVisit::Done), names, defs),
{
    let rank = choose|rank: spec_fn(Text) -> nat| ranked(state, names, defs, rank);
    let edges = edges_of(defs, name);
    let above = 1 + rank_sum(edges, rank, edges.len());
    let next = |x: Text|
        if x == name {
            above
        } else {
            rank(x)
        };
    let after = inserted(state, name, RefVisit::Done);
    lemma_inserted(state, name, RefVisit::Done);
    assert forall|a: Text, b: Text|
        done(after, a) && has_key(names, b) && #[trigger] edge(defs, a, b) implies done(after, b)
        && next(b) < next(a) by {
        if a == name {
            assert(done(state, b));
            let k = choose|k: int| 0 <= k < edges.len() && edges[k] == b;
            lemma_rank_sum(edges, rank, edges.len(), k);
        } else {
            assert(done(state, a));
            assert(done(state, b));
        }
    }
    assert(ranked(after, names, defs, next));
}

/// A search from a name that ends without a complaint is through with it.
proof fn lemma_visit(name: Text, names: Names, defs: Defs, state: Visits, depth: nat)
    requires
        sorted(state),
        rankable(state, names, defs),
        has_key(names, name),
        !has_key(state, name),
        unvisited(names, state, names.len()) <= depth + 1,
        visit(name, names, defs, state, depth) is Ok,
    ensures
        ({
            let after = visit(name, names, defs, state, depth)->Ok_0;
            &&& later(state, after)
            &&& rankable(after, names, defs)
            &&& done(after, name)
        }),
    decreases depth, 1nat, 0nat,
{
    let inside = inserted(state, name, RefVisit::Visiting);
    lemma_inserted(state, name, RefVisit::Visiting);
    let edges = edges_of(defs, name);
    assert(rankable(inside, names, defs)) by {
        let rank = choose|rank: spec_fn(Text) -> nat| ranked(state, names, defs, rank);
        assert forall|a: Text, b: Text|
            done(inside, a) && has_key(names, b) && #[trigger] edge(defs, a, b) implies done(
            inside,
            b,
        ) && rank(b) < rank(a) by {
            assert(a != name);
            assert(done(state, a));
            assert(done(state, b));
            assert(b != name);
        }
        assert(ranked(inside, names, defs, rank));
    }
    assert forall|x: Text| has_key(state, x) implies #[trigger] has_key(inside, x) by {
        if x != name {
            assert(lookup(inside, x) == lookup(state, x));
        }
    }
    let k = lemma_lookup_index(names, name);
    lemma_unvisited_less(names, state, inside, names.len(), k);
    lemma_visit_edges(edges, names, defs, inside, depth, edges.len());
    let after = visit_edges(edges, names, defs, inside, depth, edges.len())->Ok_0;
    assert forall|b: Text| has_key(names, b) && #[trigger] edge(defs, name, b) implies done(
        after,
        b,
    ) by {
        let i = choose|i: int| 0 <= i < edges.len() && edges[i] == b;
        assert(has_key(names, edges[i]));
    }
    assert(lookup(inside, name) == Some(RefVisit::Visiting));
    assert(lookup(after, name) == Some(RefVisit::Visiting));
    lemma_finish(after, name, names, defs);
    lemma_inserted(after, name, RefVisit::Done);
    let end = inserted(after, name, RefVisit::Done);
    assert forall|x: Text| done(state, x) implies #[trigger] done(end, x) by {
        assert(x != name);
        assert(done(inside, x));
        assert(done(after, x));
    }
    assert forall|x: Text| #[trigger]
        lookup(end, x) == Some(RefVisit::Visiting) <==> lookup(state, x) == Some(
            RefVisit::Visiting,
        ) by {
        if x != name {
            assert(lookup(end, x) == lookup(after, x));
            assert(lookup(inside, x) == lookup(state, x));
            assert(lookup(after, x) == Some(RefVisit::Visiting) <==> lookup(inside, x) == Some(
                RefVisit::Visiting,
            ));
        }
    }
}

/// A search along references that ends without a complaint is through with them.
proof fn lemma_visit_edges(
    edges: Seq<Text>,
    names: Names,
    defs: Defs,
    state: Visits,
    depth: nat,
    n: nat,
)
    requires
        n <= edges.len(),
        sorted(state),
        rankable(state, names, defs),
        unvisited(names, state, names.len()) <= depth,
        visit_edges(edges, names, defs, state, depth, n) is Ok,
    ensures
        ({
            let after = visit_edges(edges, names, defs, state, depth, n)->Ok_0;
            &&& later(state, after)
            &&& rankable(after, names, defs)
            &&& forall|i: int|
                0 <= i < n && has_key(names, #[trigger] edges[i]) ==> done(after, edges[i])
        }),
    decreases depth, 0nat, n,
{
    if n > 0 {
        let m = (n - 1) as nat;
        lemma_visit_edges(edges, names, defs, state, depth, m);
        let before = visit_edges(edges, names, defs, state, depth, m)->Ok_0;
        let e = edges[n - 1];
        let after = visit_edges(edges, names, defs, state, depth, n)->Ok_0;
        lemma_later_keys(state, before);
        lemma_unvisited_later(names, state, before, names.len());
        if lookup(before, e) is None && has_key(names, e) {
            let k = lemma_lookup_index(names, e);
            if depth == 0 {
                lemma_unvisited_some(names, before, names.len(), k);
            }
            lemma_visit(e, names, defs, before, (depth - 1) as nat);
            lemma_later_trans(state, before, after);
        }
        assert forall|i: int|
            0 <= i < n && has_key(names, #[trigger] edges[i]) implies done(after, edges[i]) by {
            if i < m {
                assert(done(before, edges[i]));
            }
        }
    }
}

/// An unvisited name counts.
proof fn lemma_unvisited_some<A, B>(names: Seq<(Text, A)>, state: Seq<(Text, B)>, n: nat, k: int)
    requires
        0 <= k < n <= names.len(),
        !has_key(state, names[k].0),
    ensures
        unvisited(names, state, n) > 0,
    decreases n,
{
    if k < n - 1 {
        lemma_unvisited_some(names, state, (n - 1) as nat, k);
    }
}

/// What was visited stays so.
proof fn lemma_later_keys(before: Visits, after: Visits)
    requires
        later(before, after),
    ensures
        forall|x: Text| has_key(before, x) ==> #[trigger] has_key(after, x),
{
    assert forall|x: Text| has_key(before, x) implies #[trigger] has_key(after, x) by {
        match lookup(before, x) {
            Some(RefVisit::Done) => {
                assert(done(before, x));
                assert(done(after, x));
            },
            _ => {
                assert(lookup(after, x) == Some(RefVisit::Visiting));
            },
        }
    }
}

/// A later state of a later state is a later state.
proof fn lemma_later_trans(a: Visits, b: Visits, c: Visits)
    requires
        later(a, b),
        later(b, c),
    ensures
        later(a, c),
{
    assert forall|x: Text| done(a, x) implies #[trigger] done(c, x) by {
        assert(done(b, x));
    }
    assert forall|x: Text| #[trigger]
        lookup(c, x) == Some(RefVisit::Visiting) <==> lookup(a, x) == Some(RefVisit::Visiting) by {
        assert(lookup(b, x) == Some(RefVisit::Visiting) <==> lookup(a, x) == Some(
            RefVisit::Visiting,
        ));
    }
}

/// A search from all names that ends without a complaint is through with them.
proof fn lemma_visit_all(names: Names, defs: Defs, depth: nat, n: nat)
    requires
        n <= names.len() <= depth,
        visit_all(names, defs, depth, n) is Ok,
    ensures
        ({
            let after = visit_all(names, defs, depth, n)->Ok_0;
            &&& later(Seq::empty(), after)
            &&& rankable(after, names, defs)
            &&& forall|i: int| 0 <= i < n ==> done(after, (#[trigger] names[i]).0)
        }),
    decreases n,
{
    let empty = Seq::<(Text, RefVisit)>::empty();
    if n == 0 {
        let rank = |x: Text| 0nat;
        assert(ranked(empty, names, defs, rank));
    } else {
        let m = (n - 1) as nat;
        lemma_visit_all(names, defs, depth, m);
        let before = visit_all(names, defs, depth, m)->Ok_0;
        let after = visit_all(names, defs, depth, n)->Ok_0;
        let name = names[n - 1].0;
        if has_key(before, name) {
            assert(lookup(empty, name) is None);
            match lookup(before, name) {
                Some(RefVisit::Visiting) => {
                    assert(false);
                },
                _ => {
                    assert(done(before, name));
                },
            }
            assert(after == before);
        } else {
            lemma_has_key_at(names, n - 1);
            lemma_unvisited_bound(names, before, names.len());
            lemma_visit(name, names, defs, before, depth);
            lemma_later_trans(empty, before, after);
        }
        assert forall|i: int| 0 <= i < n implies done(after, (#[trigger] names[i]).0) by {
            if i < m {
                assert(done(before, names[i].0));
            }
        }
    }
}

/// No more names are unvisited than there are.
proof fn lemma_unvisited_bound<A, B>(names: Seq<(Text, A)>, state: Seq<(Text, B)>, n: nat)
    ensures
        unvisited(names, state, n) <= n,
    decreases n,
{
    if n > 0 && n <= names.len() {
        lemma_unvisited_bound(names, state, (n - 1) as nat);
    }
}

/// Ranks fall along a path.
proof fn lemma_path_falls(
    defs: Defs,
    names: Names,
    rank: spec_fn(Text) -> nat,
    route: Seq<Text>,
    k: int,
)
    requires
        falls(defs, names, rank),
        path(defs, route),
        forall|i: int| 0 <= i < route.len() ==> has_key(names, #[trigger] route[i]),
        0 < k < route.len(),
    ensures
        rank(route[k]) < rank(route[0]),
    decreases k,
{
    assert(edge(defs, route[k - 1], route[k - 1 + 1]));
    if k > 1 {
        lemma_path_falls(defs, names, rank, route, k - 1);
    }
}

// ---------------------------------------------------------------------
// The search finds only cycles
// ---------------------------------------------------------------------

/// Whether a path among names leads from one to another.
spec fn leads(defs: Defs, names: Names, a: Text, b: Text, route: Seq<Text>) -> bool {
    &&& path(defs, route)
    &&& route[0] == a
    &&& route.last() == b
    &&& forall|i: int| 0 <= i < route.len() ==> has_key(names, #[trigger] route[i])
}

/// Whether the search is inside names only that lead to the given one.
spec fn all_lead(state: Visits, names: Names, defs: Defs, b: Text) -> bool {
    forall|a: Text| #[trigger]
        lookup(state, a) == Some(RefVisit::Visiting) ==> exists|route: Seq<Text>|
            leads(defs, names, a, b, route)
}

/// A path goes on along a reference.
proof fn lemma_path_on(defs: Defs, names: Names, a: Text, b: Text, c: Text, route: Seq<Text>)
    requires
        leads(defs, names, a, b, route),
        edge(defs, b, c),
        has_key(names, c),
    ensures
        leads(defs, names, a, c, route.push(c)),
        route.push(c).len() >= 2,
{
    let longer = route.push(c);
    assert forall|i: int| 0 <= i < longer.len() - 1 implies #[trigger] edge(
        defs,
        longer[i],
        longer[i + 1],
    ) by {
        if i < route.len() - 1 {
            assert(edge(defs, route[i], route[i + 1]));
        }
    }
}

/// A complaint of a search from a name comes with a cycle; without one, the search is
/// inside the same names as before.
proof fn lemma_visit_cycle(name: Text, names: Names, defs: Defs, state: Visits, depth: nat)
    requires
        sorted(state),
        has_key(names, name),
        !has_key(state, name),
        all_lead(state, names, defs, name),
    ensures
        match visit(name, names, defs, state, depth) {
            Ok(after) => later(state, after),
            Err(_) => exists|route: Seq<Text>| cycle(defs, names, route),
        },
    decreases depth, 1nat, 0nat,
{
    let inside = inserted(state, name, RefVisit::Visiting);
    lemma_inserted(state, name, RefVisit::Visiting);
    let edges = edges_of(defs, name);
    assert forall|a: Text| #[trigger]
        lookup(inside, a) == Some(RefVisit::Visiting) implies exists|route: Seq<Text>|
        leads(defs, names, a, name, route) by {
        if a == name {
            assert(leads(defs, names, a, name, seq![name]));
        } else {
            assert(lookup(state, a) == Some(RefVisit::Visiting));
        }
    }
    lemma_visit_edges_cycle(name, names, defs, inside, depth, edges.len());
    match visit_edges(edges, names, defs, inside, depth, edges.len()) {
        Ok(after) => {
            lemma_inserted(after, name, RefVisit::Done);
            let end = inserted(after, name, RefVisit::Done);
            assert forall|x: Text| done(state, x) implies #[trigger] done(end, x) by {
                assert(x != name);
                assert(done(inside, x));
                assert(done(after, x));
            }
            assert forall|x: Text| #[trigger]
                lookup(end, x) == Some(RefVisit::Visiting) <==> lookup(state, x) == Some(
                    RefVisit::Visiting,
                ) by {
                if x != name {
                    assert(lookup(end, x) == lookup(after, x));
                    assert(lookup(inside, x) == lookup(state, x));
                    assert(lookup(after, x) == Some(RefVisit::Visiting) <==> lookup(inside, x)
                        == Some(RefVisit::Visiting));
                }
            }
        },
        Err(_) => {},
    }
}

/// A complaint of a search along references comes with a cycle.
proof fn lemma_visit_edges_cycle(
    name: Text,
    names: Names,
    defs: Defs,
    state: Visits,
    depth: nat,
    n: nat,
)
    requires
        n <= edges_of(defs, name).len(),
        sorted(state),
        has_key(names, name),
        all_lead(state, names, defs, name),
        forall|x: Text| #[trigger]
            lookup(state, x) == Some(RefVisit::Visiting) ==> has_key(names, x),
    ensures
        match visit_edges(edges_of(defs, name), names, defs, state, depth, n) {
            Ok(after) => later(state, after),
            Err(_) => exists|route: Seq<Text>| cycle(defs, names, route),
        },
    decreases depth, 0nat, n,
{
    let edges = edges_of(defs, name);
    if n > 0 {
        let m = (n - 1) as nat;
        lemma_visit_edges_cycle(name, names, defs, state, depth, m);
        match visit_edges(edges, names, defs, state, depth, m) {
            Ok(before) => {
                let e = edges[n - 1];
                assert(edge(defs, name, e));
                match lookup(before, e) {
                    Some(RefVisit::Visiting) => {
                        assert(lookup(state, e) == Some(RefVisit::Visiting));
                        let route = choose|route: Seq<Text>| leads(defs, names, e, name, route);
                        lemma_path_on(defs, names, e, name, e, route);
                        assert(cycle(defs, names, route.push(e)));
                    },
                    Some(RefVisit::Done) => {},
                    None => {
                        if has_key(names, e) && depth > 0 {
                            assert forall|a: Text| #[trigger]
                                lookup(before, a) == Some(RefVisit::Visiting) implies exists|
                                route: Seq<Text>,
                            | leads(defs, names, a, e, route) by {
                                assert(lookup(state, a) == Some(RefVisit::Visiting));
                                let route = choose|route: Seq<Text>|
                                    leads(defs, names, a, name, route);
                                lemma_path_on(defs, names, a, name, e, route);
                            }
                            lemma_visit_cycle(e, names, defs, before, (depth - 1) as nat);
                            match visit(e, names, defs, before, (depth - 1) as nat) {
                                Ok(after) => {
                                    lemma_later_trans(state, before, after);
                                },
                                Err(_) => {},
                            }
                        }
                    },
                }
            },
            Err(_) => {},
        }
    }
}

/// A complaint of the search from all names comes with a cycle.
proof fn lemma_visit_all_cycle(names: Names, defs: Defs, depth: nat, n: nat)
    requires
        n <= names.len(),
    ensures
        match visit_all(names, defs, depth, n) {
            Ok(after) => later(Seq::empty(), after),
            Err(_) => exists|route: Seq<Text>| cycle(defs, names, route),
        },
    decreases n,
{
    let empty = Seq::<(Text, RefVisit)>::empty();
    if n > 0 {
        let m = (n - 1) as nat;
        lemma_visit_all_cycle(names, defs, depth, m);
        match visit_all(names, defs, depth, m) {
            Ok(before) => {
                let name = names[n - 1].0;
                if !has_key(before, name) {
                    lemma_has_key_at(names, n - 1);
                    assert forall|a: Text| #[trigger]
                        lookup(before, a) == Some(RefVisit::Visiting) implies exists|
                        route: Seq<Text>,
                    | leads(defs, names, a, name, route) by {
                        assert(lookup(empty, a) is None);
                    }
                    lemma_visit_cycle(name, names, defs, before, depth);
                    match visit(name, names, defs, before, depth) {
                        Ok(after) => {
                            lemma_later_trans(empty, before, after);
                        },
                        Err(_) => {},
                    }
                }
            },
            Err(_) => {},
        }
    }
}

// ---------------------------------------------------------------------
// The names that are reached
// ---------------------------------------------------------------------

/// Whether a pattern refers to a name, wherever inside it.
pub open spec fn mentions(p: PatternModel, name: Text) -> bool
    decreases p,
{
    match p {
        PatternModel::Ref(target) => target == name,
        _ => match operands(p) {
            Some(values) => {
                proof {
                    lemma_operands(p);
                }
                some_mentions(values, name)
            },
            None => false,
        },
    }
}

/// Whether some pattern refers to a name.
pub open spec fn some_mentions(s: Seq<PatternModel>, name: Text) -> bool
    decreases s,
{
    exists|i: int| 0 <= i < s.len() && mentions(#[trigger] s[i], name)
}

/// Whether a set of names holds whatever else is defined and referred to by those that
/// another one does not hold.
spec fn closed(after: Names, seen: Names, defs: Defs) -> bool {
    forall|a: Text, b: Text|
        has_key(after, a) && !has_key(seen, a) && has_key(defs, b) && #[trigger] mentions(
            lookup(defs, a)->0,
            b,
        ) ==> has_key(after, b)
}

/// Whether a set of names holds another, is in order, and holds only what is defined
/// besides.
spec fn grown(after: Names, seen: Names, defs: Defs) -> bool {
    &&& sorted(after)
    &&& forall|x: Text| has_key(seen, x) ==> #[trigger] has_key(after, x)
    &&& forall|x: Text| #[trigger] has_key(after, x) ==> has_key(seen, x) || has_key(defs, x)
}

/// The names reached from a pattern are those reached already, those that the pattern
/// refers to, and those that they refer to in turn.
proof fn lemma_reached(p: PatternModel, defs: Defs, seen: Names, depth: nat)
    requires
        sorted(seen),
        unvisited(defs, seen, defs.len()) <= depth,
    ensures
        ({
            let after = reached(p, defs, seen, depth);
            &&& grown(after, seen, defs)
            &&& closed(after, seen, defs)
            &&& forall|b: Text|
                has_key(defs, b) && #[trigger] mentions(p, b) ==> has_key(after, b)
        }),
    decreases depth, p, 0nat,
{
    let after = reached(p, defs, seen, depth);
    match p {
        PatternModel::Ref(name) => match lookup(defs, name) {
            Some(target) => {
                if !has_key(seen, name) {
                    let k = lemma_lookup_index(defs, name);
                    lemma_unvisited_some(defs, seen, defs.len(), k);
                    let more = inserted(seen, name, ());
                    lemma_inserted(seen, name, ());
                    assert forall|x: Text| has_key(seen, x) implies #[trigger] has_key(more, x) by {
                        assert(x == name || lookup(more, x) == lookup(seen, x));
                    }
                    lemma_unvisited_less(defs, seen, more, defs.len(), k);
                    lemma_reached(target, defs, more, (depth - 1) as nat);
                    assert forall|x: Text| #[trigger] has_key(after, x) implies has_key(seen, x)
                        || has_key(defs, x) by {
                        assert(x == name || lookup(more, x) == lookup(seen, x));
                    }
                    assert(has_key(more, name));
                    assert forall|a: Text, b: Text|
                        has_key(after, a) && !has_key(seen, a) && has_key(defs, b)
                            && #[trigger] mentions(lookup(defs, a)->0, b) implies has_key(
                        after,
                        b,
                    ) by {
                        if a != name {
                            assert(lookup(more, a) == lookup(seen, a));
                        } else {
                            assert(mentions(target, b));
                        }
                    }
                }
            },
            None => {},
        },
        _ => {
            if operands(p) is Some {
                let values = operands(p)->0;
                lemma_operands(p);
                lemma_reached_all(values, defs, seen, depth, values.len());
                assert(after == reached_all(values, defs, seen, depth, values.len()));
                assert forall|b: Text| has_key(defs, b) && #[trigger] mentions(p, b) implies has_key(
                    after,
                    b,
                ) by {
                    let i = choose|i: int|
                        0 <= i < values.len() && mentions(#[trigger] values[i], b);
                    assert(mentions(values[i], b));
                }
            }
        },
    }
}

/// The names reached from patterns.
proof fn lemma_reached_all(s: Seq<PatternModel>, defs: Defs, seen: Names, depth: nat, n: nat)
    requires
        n <= s.len(),
        sorted(seen),
        unvisited(defs, seen, defs.len()) <= depth,
    ensures
        ({
            let after = reached_all(s, defs, seen, depth, n);
            &&& grown(after, seen, defs)
            &&& closed(after, seen, defs)
            &&& forall|i: int, b: Text|
                0 <= i < n && has_key(defs, b) && #[trigger] mentions(s[i], b) ==> has_key(
                    after,
                    b,
                )
        }),
    decreases depth, s, n,
{
    if n > 0 {
        let m = (n - 1) as nat;
        lemma_reached_all(s, defs, seen, depth, m);
        let before = reached_all(s, defs, seen, depth, m);
        lemma_unvisited_later(defs, seen, before, defs.len());
        lemma_reached(s[n - 1], defs, before, depth);
        let after = reached_all(s, defs, seen, depth, n);
        assert forall|a: Text, b: Text|
            has_key(after, a) && !has_key(seen, a) && has_key(defs, b) && #[trigger] mentions(
                lookup(defs, a)->0,
                b,
            ) implies has_key(after, b) by {
            if has_key(before, a) {
                assert(has_key(before, b));
            }
        }
        assert forall|i: int, b: Text|
            0 <= i < n && has_key(defs, b) && #[trigger] mentions(s[i], b) implies has_key(
            after,
            b,
        ) by {
            if i < m {
                assert(has_key(before, b));
            }
        }
    }
}

/// No more names are reached than are defined.
proof fn lemma_reached_count(names: Names, defs: Defs)
    requires
        sorted(names),
        forall|x: Text| #[trigger] has_key(names, x) ==> has_key(defs, x),
    ensures
        names.len() <= defs.len(),
{
    let a = Seq::new(names.len(), |i: int| names[i].0);
    let b = Seq::new(defs.len(), |i: int| defs[i].0);
    assert(a.no_duplicates()) by {
        assert forall|i: int, j: int|
            0 <= i < a.len() && 0 <= j < a.len() && i != j implies a[i] != a[j] by {
            lemma_text_lt_irreflexive(a[i]);
            if i < j {
                assert(text_lt(names[i].0, names[j].0));
            } else {
                assert(text_lt(names[j].0, names[i].0));
            }
        }
    }
    a.unique_seq_to_set();
    b.lemma_cardinality_of_set();
    assert(a.to_set().subset_of(b.to_set())) by {
        assert forall|x: Text| a.to_set().contains(x) implies b.to_set().contains(x) by {
            let i = choose|i: int| 0 <= i < a.len() && a[i] == x;
            lemma_has_key_at(names, i);
            assert(has_key(names, names[i].0));
            let k = lemma_lookup_index(defs, x);
            assert(b[k] == x);
        }
    }
    vstd::set_lib::lemma_len_subset(a.to_set(), b.to_set());
}

/// Whether a pattern refers to the first of names, each of them to the next, and all of them
/// are defined.
pub open spec fn chain(p: PatternModel, defs: Defs, route: Seq<Text>) -> bool {
    &&& route.len() > 0
    &&& mentions(p, route[0])
    &&& forall|i: int|
        0 <= i < route.len() - 1 ==> mentions(lookup(defs, #[trigger] route[i])->0, route[i + 1])
    &&& forall|i: int| 0 <= i < route.len() ==> has_key(defs, #[trigger] route[i])
}

/// Whether a name is the end of a chain of mentions that starts with a pattern.
pub open spec fn chained(p: PatternModel, defs: Defs, name: Text) -> bool {
    exists|route: Seq<Text>| #[trigger] chain(p, defs, route) && route.last() == name
}

/// A chain of mentions that starts with what a name stands for, behind the name.
pub proof fn lemma_longer_chain(name: Text, defs: Defs, rest: Seq<Text>)
    requires
        has_key(defs, name),
        chain(lookup(defs, name)->0, defs, rest),
    ensures
        chain(PatternModel::Ref(name), defs, seq![name] + rest),
{
    let route = seq![name] + rest;
    assert forall|i: int| 0 <= i < route.len() - 1 implies mentions(
        lookup(defs, #[trigger] route[i])->0,
        route[i + 1],
    ) by {
        if i > 0 {
            assert(route[i] == rest[i - 1]);
            assert(route[i + 1] == rest[i - 1 + 1]);
        }
    }
}

/// A name reached is one reached already, or the end of a chain of mentions.
proof fn lemma_reached_chained(p: PatternModel, defs: Defs, seen: Names, depth: nat, x: Text)
    requires
        has_key(reached(p, defs, seen, depth), x),
    ensures
        has_key(seen, x) || chained(p, defs, x),
    decreases depth, p, 0nat,
{
    match p {
        PatternModel::Ref(name) => {
            if has_key(defs, name) && !has_key(seen, name) && depth > 0 {
                let target = lookup(defs, name)->0;
                let more = inserted(seen, name, ());
                lemma_reached_chained(target, defs, more, (depth - 1) as nat, x);
                if has_key(more, x) {
                    if x != name {
                        let i = lemma_lookup_index(more, x);
                        lemma_inserted_entries(seen, name, ());
                        assert(more[i] != (name, ()));
                        let k = choose|k: int| 0 <= k < seen.len() && seen[k] == more[i];
                        lemma_has_key_at(seen, k);
                    } else {
                        assert(chain(p, defs, seq![name]));
                        assert(seq![name].last() == name);
                    }
                } else {
                    let rest = choose|rest: Seq<Text>| #[trigger]
                        chain(target, defs, rest) && rest.last() == x;
                    lemma_longer_chain(name, defs, rest);
                    assert((seq![name] + rest).last() == x);
                }
            }
        },
        _ => {
            if operands(p) is Some {
                let values = operands(p)->0;
                lemma_operands(p);
                let i = lemma_reached_all_chained(values, defs, seen, depth, values.len(), x);
                if !has_key(seen, x) {
                    let route = choose|route: Seq<Text>| #[trigger]
                        chain(values[i], defs, route) && route.last() == x;
                    assert(some_mentions(values, route[0]));
                    assert(chain(p, defs, route));
                }
            }
        },
    }
}

/// A name reached from patterns is one reached already, or the end of a chain of mentions
/// that starts with one of them.
proof fn lemma_reached_all_chained(
    s: Seq<PatternModel>,
    defs: Defs,
    seen: Names,
    depth: nat,
    n: nat,
    x: Text,
) -> (i: int)
    requires
        n <= s.len(),
        has_key(reached_all(s, defs, seen, depth, n), x),
    ensures
        has_key(seen, x) || 0 <= i < n && chained(s[i], defs, x),
    decreases depth, s, n,
{
    if n > 0 {
        let m = (n - 1) as nat;
        let before = reached_all(s, defs, seen, depth, m);
        lemma_reached_chained(s[n - 1], defs, before, depth, x);
        if has_key(before, x) {
            lemma_reached_all_chained(s, defs, seen, depth, m, x)
        } else {
            n - 1
        }
    } else {
        0
    }
}

/// Along a chain of mentions every name is reached.
proof fn lemma_chain_reached(
    start: PatternModel,
    defs: Defs,
    names: Names,
    route: Seq<Text>,
    i: int,
)
    requires
        chain(start, defs, route),
        forall|b: Text| has_key(defs, b) && #[trigger] mentions(start, b) ==> has_key(names, b),
        forall|a: Text, b: Text|
            has_key(names, a) && has_key(defs, b) && #[trigger] mentions(
                lookup(defs, a)->0,
                b,
            ) ==> has_key(names, b),
        0 <= i < route.len(),
    ensures
        has_key(names, route[i]),
    decreases i,
{
    if i > 0 {
        lemma_chain_reached(start, defs, names, route, i - 1);
        assert(mentions(lookup(defs, route[i - 1])->0, route[i - 1 + 1]));
    } else {
        assert(has_key(defs, route[0]));
    }
}

/// The names that the start reaches: every name that is defined and that the start, or a
/// name reached, refers to, and none that is not defined.
pub proof fn law_reached_names_are_closed(start: PatternModel, defs: Defs, depth: nat)
    requires
        defs.len() <= depth,
    ensures
        ({
            let names = reached(start, defs, Seq::empty(), depth);
            &&& names.len() <= defs.len()
            &&& forall|b: Text|
                has_key(defs, b) && #[trigger] mentions(start, b) ==> has_key(names, b)
            &&& forall|a: Text, b: Text|
                has_key(names, a) && has_key(defs, b) && #[trigger] mentions(
                    lookup(defs, a)->0,
                    b,
                ) ==> has_key(names, b)
            &&& forall|x: Text| #[trigger] has_key(names, x) ==> has_key(defs, x)
        }),
{
    let empty = Seq::<(Text, ())>::empty();
    lemma_unvisited_bound(defs, empty, defs.len());
    lemma_reached(start, defs, empty, depth);
    let names = reached(start, defs, empty, depth);
    assert forall|x: Text| #[trigger] has_key(names, x) implies has_key(defs, x) by {
        assert(!has_key(empty, x));
    }
    assert forall|a: Text, b: Text|
        has_key(names, a) && has_key(defs, b) && #[trigger] mentions(
            lookup(defs, a)->0,
            b,
        ) implies has_key(names, b) by {
        assert(!has_key(empty, a));
    }
    lemma_reached_count(names, defs);
}

/// The start reaches a name exactly where a chain of mentions leads from the start to it:
/// the start refers to a name that is defined, that one to another, and so on to the last.
pub proof fn law_reached_names_are_chained(start: PatternModel, defs: Defs, depth: nat, name: Text)
    requires
        defs.len() <= depth,
    ensures
        has_key(reached(start, defs, Seq::empty(), depth), name) <==> chained(start, defs, name),
{
    let empty = Seq::<(Text, ())>::empty();
    let names = reached(start, defs, empty, depth);
    if has_key(names, name) {
        lemma_reached_chained(start, defs, empty, depth, name);
        assert(!has_key(empty, name));
    }
    if chained(start, defs, name) {
        law_reached_names_are_closed(start, defs, depth);
        let route = choose|route: Seq<Text>| #[trigger]
            chain(start, defs, route) && route.last() == name;
        lemma_chain_reached(start, defs, names, route, route.len() - 1);
    }
}

// ---------------------------------------------------------------------
// What it comes to
// ---------------------------------------------------------------------

/// Where the search for illegal recursion has no complaint, the names that the start
/// reaches can be ranked so that each refers, without an element in between, only to names
/// of a lower rank.
pub proof fn law_accepted_references_fall(start: PatternModel, defs: Defs, depth: nat)
    requires
        defs.len() <= depth,
        recursion_problem(start, defs, depth) is None,
    ensures
        exists|rank: spec_fn(Text) -> nat| #[trigger]
            falls(defs, reached(start, defs, Seq::empty(), depth), rank),
{
    let names = reached(start, defs, Seq::empty(), depth);
    law_reached_names_are_closed(start, defs, depth);
    lemma_visit_all(names, defs, depth, names.len());
    let after = visit_all(names, defs, depth, names.len())->Ok_0;
    let rank = choose|rank: spec_fn(Text) -> nat| ranked(after, names, defs, rank);
    assert forall|a: Text, b: Text|
        has_key(names, a) && has_key(names, b) && #[trigger] edge(defs, a, b) implies rank(b)
        < rank(a) by {
        let i = lemma_lookup_index(names, a);
        assert(done(after, names[i].0));
    }
    assert(falls(defs, names, rank));
}

/// The search for illegal recursion complains exactly where some named pattern that the
/// start reaches refers to itself, by way of others or not, without an element in between.
pub proof fn law_complaint_is_about_a_cycle(start: PatternModel, defs: Defs, depth: nat)
    requires
        defs.len() <= depth,
    ensures
        recursion_problem(start, defs, depth) is Some <==> exists|route: Seq<Text>|
            cycle(defs, reached(start, defs, Seq::empty(), depth), route),
{
    let names = reached(start, defs, Seq::empty(), depth);
    if recursion_problem(start, defs, depth) is Some {
        lemma_visit_all_cycle(names, defs, depth, names.len());
    } else {
        law_accepted_references_fall(start, defs, depth);
        let rank = choose|rank: spec_fn(Text) -> nat| #[trigger] falls(defs, names, rank);
        assert forall|route: Seq<Text>| !cycle(defs, names, route) by {
            if cycle(defs, names, route) {
                lemma_path_falls(defs, names, rank, route, route.len() - 1);
            }
        }
    }
}

/// Whether a path goes round, through names that chains of mentions lead to from a start.
pub open spec fn used_cycle(start: PatternModel, defs: Defs, route: Seq<Text>) -> bool {
    &&& route.len() >= 2
    &&& path(defs, route)
    &&& route[0] == route.last()
    &&& forall|i: int| 0 <= i < route.len() ==> chained(start, defs, #[trigger] route[i])
}

/// Recursion is an error exactly where it is used: the search complains just in case some
/// named patterns go round without an element in between, and a chain of mentions leads from
/// the start to each of them. Recursion that the start never comes to is no error.
pub proof fn law_only_used_recursion_is_an_error(start: PatternModel, defs: Defs, depth: nat)
    requires
        defs.len() <= depth,
    ensures
        recursion_problem(start, defs, depth) is Some <==> exists|route: Seq<Text>|
            used_cycle(start, defs, route),
{
    let names = reached(start, defs, Seq::empty(), depth);
    law_complaint_is_about_a_cycle(start, defs, depth);
    assert forall|route: Seq<Text>|
        cycle(defs, names, route) == used_cycle(start, defs, route) by {
        assert forall|i: int| 0 <= i < route.len() implies has_key(names, #[trigger] route[i])
            == chained(start, defs, route[i]) by {
            law_reached_names_are_chained(start, defs, depth, route[i]);
        }
    }
    if recursion_problem(start, defs, depth) is Some {
        let route = choose|route: Seq<Text>| cycle(defs, names, route);
        assert(used_cycle(start, defs, route));
    }
}

} // verus!
