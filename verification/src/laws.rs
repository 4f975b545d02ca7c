//! What the contract of the search means for callbacks that are functions.
//!
//! A caller usually knows its callbacks through two mathematical functions:
//! `accepts`, which says whether a state is a goal, and `successors`, which
//! gives the states one step away, in the order in which they are listed.
//! The laws below restate the engine's guarantees over the graph that these
//! two functions describe.

use crate::graph::{
    certain_route, expandable, expandable_states, expandable_within, first_at, goes_before,
    listed_before, may_reject, may_step, must_accept, must_step, parts_first_at, search_ends,
    search_walk,
};
use crate::progress::{first_seen, searching};
use crate::search::{exhausted, found};
use crate::tree::SearchTreeNode;
use vstd::prelude::*;

verus! {

/// `goal` answers what `accepts` says.
pub open spec fn decides<A, B, G: Fn(&A, &B) -> bool>(
    maze: &A,
    goal: G,
    accepts: spec_fn(B) -> bool,
) -> bool {
    forall|s: B, r: bool| #[trigger] goal.ensures((maze, &s), r) ==> r == accepts(s)
}

/// `expand` lists what `successors` gives, in that order.
pub open spec fn lists<A, B, E: Fn(&A, &B) -> Vec<B>>(
    maze: &A,
    expand: E,
    successors: spec_fn(B) -> Seq<B>,
) -> bool {
    forall|s: B, v: Vec<B>| #[trigger] expand.ensures((maze, &s), v) ==> v@ == successors(s)
}

/// A non-empty sequence of states, each a successor of the one before.
pub open spec fn walk<B>(successors: spec_fn(B) -> Seq<B>, p: Seq<B>) -> bool {
    &&& p.len() > 0
    &&& forall|i: int| 0 <= i < p.len() - 1 ==> successors(#[trigger] p[i]).contains(p[i + 1])
}

/// A walk from `start` to a goal.
pub open spec fn route<B>(
    accepts: spec_fn(B) -> bool,
    successors: spec_fn(B) -> Seq<B>,
    start: B,
    p: Seq<B>,
) -> bool {
    &&& walk(successors, p)
    &&& p[0] == start
    &&& accepts(p.last())
}

/// The states to which a walk from `start` leads.
pub open spec fn reachable<B>(successors: spec_fn(B) -> Seq<B>, start: B) -> Set<B> {
    Set::new(
        |t: B| exists|p: Seq<B>| #[trigger] walk(successors, p) && p[0] == start && p.last() == t,
    )
}

/// Every route of the graph is certain to be there.
pub proof fn lemma_route_is_certain<A, B, G: Fn(&A, &B) -> bool, E: Fn(&A, &B) -> Vec<B>>(
    maze: &A,
    goal: G,
    expand: E,
    accepts: spec_fn(B) -> bool,
    successors: spec_fn(B) -> Seq<B>,
    start: B,
    q: Seq<B>,
)
    requires
        decides(maze, goal, accepts),
        lists(maze, expand, successors),
        route(accepts, successors, start, q),
    ensures
        certain_route(maze, goal, expand, start, q),
{
    assert forall|i: int| 0 <= i < q.len() - 1 implies must_step(
        maze,
        expand,
        #[trigger] q[i],
        q[i + 1],
    ) by {
        assert(successors(q[i]).contains(q[i + 1]));
    }
}

/// Every walk that a search may follow is a walk of the graph on which no
/// state but the last is a goal.
pub proof fn lemma_search_walk_is_walk<A, B, G: Fn(&A, &B) -> bool, E: Fn(&A, &B) -> Vec<B>>(
    maze: &A,
    goal: G,
    expand: E,
    accepts: spec_fn(B) -> bool,
    successors: spec_fn(B) -> Seq<B>,
    p: Seq<B>,
)
    requires
        decides(maze, goal, accepts),
        lists(maze, expand, successors),
        search_walk(maze, goal, expand, p),
    ensures
        walk(successors, p),
        forall|i: int| 0 <= i < p.len() - 1 ==> !accepts(#[trigger] p[i]),
{
    assert forall|i: int| 0 <= i < p.len() - 1 implies successors(#[trigger] p[i]).contains(
        p[i + 1],
    ) && !accepts(p[i]) by {
        assert(may_step(maze, expand, p[i], p[i + 1]));
        assert(may_reject(maze, goal, p[i]));
    }
}

/// A goal at the start is returned alone, and leaves nothing that the
/// search could come to expand: `expand` is then never called.
pub proof fn lemma_goal_at_start<A, B, G: Fn(&A, &B) -> bool, E: Fn(&A, &B) -> Vec<B>>(
    maze: &A,
    goal: G,
    expand: E,
    start: B,
    path: Seq<B>,
)
    requires
        must_accept(maze, goal, start),
        found(maze, goal, expand, start, path),
    ensures
        path == seq![start],
        forall|t: B| !expandable(maze, goal, expand, start, t),
{
    assert(certain_route(maze, goal, expand, start, seq![start]));
    assert(path =~= seq![start]);
    assert forall|t: B| !expandable(maze, goal, expand, start, t) by {
        if expandable(maze, goal, expand, start, t) {
            let p = choose|p: Seq<B>| #[trigger]
                search_walk(maze, goal, expand, p) && p[0] == start && p.last() == t;
            if p.len() > 1 {
                assert(may_reject(maze, goal, p[0]));
            }
        }
    }
}

/// The path returned is a route of the graph, meets no goal before its
/// end, and has the fewest steps of all routes from the start to a goal.
pub proof fn lemma_found_is_shortest<A, B, G: Fn(&A, &B) -> bool, E: Fn(&A, &B) -> Vec<B>>(
    maze: &A,
    goal: G,
    expand: E,
    accepts: spec_fn(B) -> bool,
    successors: spec_fn(B) -> Seq<B>,
    start: B,
    path: Seq<B>,
)
    requires
        decides(maze, goal, accepts),
        lists(maze, expand, successors),
        found(maze, goal, expand, start, path),
    ensures
        route(accepts, successors, start, path),
        forall|i: int| 0 <= i < path.len() - 1 ==> !accepts(#[trigger] path[i]),
        forall|q: Seq<B>| #[trigger] route(accepts, successors, start, q) ==> path.len() <= q.len(),
{
    lemma_search_walk_is_walk(maze, goal, expand, accepts, successors, path);
    assert forall|q: Seq<B>| #[trigger] route(accepts, successors, start, q) implies path.len()
        <= q.len() by {
        lemma_route_is_certain(maze, goal, expand, accepts, successors, start, q);
    }
}

/// Every consecutive pair of states on the path returned is one step of
/// `expand`: some result of `expand` on the first lists the second.
pub proof fn lemma_found_is_connected<A, B, G: Fn(&A, &B) -> bool, E: Fn(&A, &B) -> Vec<B>>(
    maze: &A,
    goal: G,
    expand: E,
    start: B,
    path: Seq<B>,
    i: int,
)
    requires
        found(maze, goal, expand, start, path),
        0 <= i < path.len() - 1,
    ensures
        exists|v: Vec<B>| #[trigger]
            expand.ensures((maze, &path[i]), v) && v@.contains(path[i + 1]),
{
    assert(may_step(maze, expand, path[i], path[i + 1]));
}

/// When the search returns no path, no walk from the start leads to a goal.
pub proof fn lemma_exhausted_has_no_route<A, B, G: Fn(&A, &B) -> bool, E: Fn(&A, &B) -> Vec<B>>(
    maze: &A,
    goal: G,
    expand: E,
    accepts: spec_fn(B) -> bool,
    successors: spec_fn(B) -> Seq<B>,
    start: B,
)
    requires
        decides(maze, goal, accepts),
        lists(maze, expand, successors),
        exhausted(maze, goal, expand, start),
    ensures
        forall|q: Seq<B>| !#[trigger] route(accepts, successors, start, q),
{
    assert forall|q: Seq<B>| !#[trigger] route(accepts, successors, start, q) by {
        if route(accepts, successors, start, q) {
            lemma_route_is_certain(maze, goal, expand, accepts, successors, start, q);
        }
    }
}

/// The search returns a path where a goal is reachable from the start, and
/// nowhere else.
pub proof fn lemma_some_iff_route<A, B, G: Fn(&A, &B) -> bool, E: Fn(&A, &B) -> Vec<B>>(
    maze: &A,
    goal: G,
    expand: E,
    accepts: spec_fn(B) -> bool,
    successors: spec_fn(B) -> Seq<B>,
    start: B,
    res: Option<Vec<B>>,
)
    requires
        decides(maze, goal, accepts),
        lists(maze, expand, successors),
        res matches Some(path) ==> found(maze, goal, expand, start, path@),
        res is None ==> exhausted(maze, goal, expand, start),
    ensures
        res is Some <==> exists|q: Seq<B>| #[trigger] route(accepts, successors, start, q),
{
    match res {
        Some(path) => {
            lemma_found_is_shortest(maze, goal, expand, accepts, successors, start, path@);
        },
        None => {
            lemma_exhausted_has_no_route(maze, goal, expand, accepts, successors, start);
        },
    }
}

/// Where finitely many states are reachable from the start, finitely many
/// can come to be expanded: the search ends.
pub proof fn lemma_finite_space<A, B, G: Fn(&A, &B) -> bool, E: Fn(&A, &B) -> Vec<B>>(
    maze: &A,
    goal: G,
    expand: E,
    accepts: spec_fn(B) -> bool,
    successors: spec_fn(B) -> Seq<B>,
    start: B,
)
    requires
        decides(maze, goal, accepts),
        lists(maze, expand, successors),
        reachable(successors, start).finite(),
    ensures
        expandable_states(maze, goal, expand, start).finite(),
        search_ends(maze, goal, expand, start),
{
    let open = expandable_states(maze, goal, expand, start);
    let all = reachable(successors, start);
    assert forall|t: B| open.contains(t) implies all.contains(t) by {
        let p = choose|p: Seq<B>| #[trigger]
            search_walk(maze, goal, expand, p) && p[0] == start && p.last() == t;
        lemma_search_walk_is_walk(maze, goal, expand, accepts, successors, p);
        assert(walk(successors, p) && p[0] == start && p.last() == t);
    }
    vstd::set_lib::lemma_len_subset(open, all);
}

/// The states that `successors` lists for some state of `from`.
pub open spec fn fan<B>(successors: spec_fn(B) -> Seq<B>, from: Set<B>) -> Set<B> {
    Set::new(|t: B| exists|s: B| #[trigger] from.contains(s) && successors(s).contains(t))
}

/// Finitely many states have finitely many successors.
pub proof fn lemma_fan_finite<B>(successors: spec_fn(B) -> Seq<B>, from: Set<B>)
    requires
        from.finite(),
    ensures
        fan(successors, from).finite(),
    decreases from.len(),
{
    if from.len() == 0 {
        from.lemma_len0_is_empty();
        assert(fan(successors, from) =~= Set::empty());
    } else {
        let s = from.choose();
        let rest = from.remove(s);
        lemma_fan_finite(successors, rest);
        vstd::seq_lib::seq_to_set_is_finite(successors(s));
        let both = fan(successors, rest).union(successors(s).to_set());
        assert forall|t: B| fan(successors, from).contains(t) implies both.contains(t) by {
            let via = choose|via: B| #[trigger] from.contains(via) && successors(via).contains(t);
            if via != s {
                assert(rest.contains(via));
            }
        }
        vstd::set_lib::lemma_len_subset(fan(successors, from), both);
    }
}

/// Within any number of steps a search may come to expand finitely many
/// states only.
pub proof fn lemma_within_finite<A, B, G: Fn(&A, &B) -> bool, E: Fn(&A, &B) -> Vec<B>>(
    maze: &A,
    goal: G,
    expand: E,
    accepts: spec_fn(B) -> bool,
    successors: spec_fn(B) -> Seq<B>,
    start: B,
    steps: int,
)
    requires
        decides(maze, goal, accepts),
        lists(maze, expand, successors),
    ensures
        expandable_within(maze, goal, expand, start, steps).finite(),
    decreases steps,
{
    let now = expandable_within(maze, goal, expand, start, steps);
    if steps <= 0 {
        let only = set![start];
        assert forall|t: B| now.contains(t) implies only.contains(t) by {
            let p = choose|p: Seq<B>| #[trigger]
                search_walk(maze, goal, expand, p) && p[0] == start && p.last() == t && p.len()
                    <= steps + 1;
            assert(p.len() == 1);
        }
        vstd::set_lib::lemma_len_subset(now, only);
    } else {
        let before = expandable_within(maze, goal, expand, start, steps - 1);
        lemma_within_finite(maze, goal, expand, accepts, successors, start, steps - 1);
        lemma_fan_finite(successors, before);
        let both = before.union(fan(successors, before));
        assert forall|t: B| now.contains(t) implies both.contains(t) by {
            let p = choose|p: Seq<B>| #[trigger]
                search_walk(maze, goal, expand, p) && p[0] == start && p.last() == t && p.len()
                    <= steps + 1;
            if p.len() <= steps {
                assert(before.contains(t));
            } else {
                let short = p.drop_last();
                let last: int = p.len() - 2;
                assert(may_step(maze, expand, p[last], p[last + 1]));
                assert(may_reject(maze, goal, p[last]));
                assert(search_walk(maze, goal, expand, short)) by {
                    assert forall|i: int| 0 <= i < short.len() - 1 implies may_step(
                        maze,
                        expand,
                        #[trigger] short[i],
                        short[i + 1],
                    ) && may_reject(maze, goal, short[i]) by {
                        assert(short[i] == p[i] && short[i + 1] == p[i + 1]);
                    }
                }
                assert(short[0] == start && short.last() == p[last] && short.len() <= steps - 1
                    + 1);
                assert(before.contains(p[last]));
                assert(successors(p[last]).contains(t));
                assert(fan(successors, before).contains(t));
            }
        }
        vstd::set_lib::lemma_len_subset(now, both);
    }
}

/// Where a goal is reachable from the start the search ends, however many
/// states there are.
pub proof fn lemma_goal_in_reach<A, B, G: Fn(&A, &B) -> bool, E: Fn(&A, &B) -> Vec<B>>(
    maze: &A,
    goal: G,
    expand: E,
    accepts: spec_fn(B) -> bool,
    successors: spec_fn(B) -> Seq<B>,
    start: B,
    q: Seq<B>,
)
    requires
        decides(maze, goal, accepts),
        lists(maze, expand, successors),
        route(accepts, successors, start, q),
    ensures
        search_ends(maze, goal, expand, start),
{
    lemma_route_is_certain(maze, goal, expand, accepts, successors, start, q);
    lemma_within_finite(maze, goal, expand, accepts, successors, start, q.len() - 1);
}

/// Of two states that `expand` lists for `s`, one before the other, the
/// first stands before the second in the list of the successors of `s`.
pub proof fn lemma_listed_before_differ<A, B, E: Fn(&A, &B) -> Vec<B>>(
    maze: &A,
    expand: E,
    successors: spec_fn(B) -> Seq<B>,
    s: B,
    t: B,
    u: B,
)
    requires
        lists(maze, expand, successors),
        listed_before(maze, expand, s, t, u),
    ensures
        exists|a: int, b: int|
            #![trigger first_at(successors(s), t, a), first_at(successors(s), u, b)]
            first_at(successors(s), t, a) && first_at(successors(s), u, b) && a < b,
        t != u,
        !listed_before(maze, expand, s, u, t),
{
    let (v, a, b) = choose|v: Vec<B>, a: int, b: int|
        #![trigger expand.ensures((maze, &s), v), first_at(v@, t, a), first_at(v@, u, b)]
        expand.ensures((maze, &s), v) && first_at(v@, t, a) && first_at(v@, u, b) && a < b;
    assert(first_at(successors(s), t, a) && first_at(successors(s), u, b));
    if listed_before(maze, expand, s, u, t) {
        let (w, c, d) = choose|w: Vec<B>, c: int, d: int|
            #![trigger expand.ensures((maze, &s), w), first_at(w@, u, c), first_at(w@, t, d)]
            expand.ensures((maze, &s), w) && first_at(w@, u, c) && first_at(w@, t, d) && c < d;
        assert(v@ == w@);
    }
}

/// The search is deterministic: two paths that meet its contract are the
/// same path.
pub proof fn lemma_found_is_unique<A, B, G: Fn(&A, &B) -> bool, E: Fn(&A, &B) -> Vec<B>>(
    maze: &A,
    goal: G,
    expand: E,
    accepts: spec_fn(B) -> bool,
    successors: spec_fn(B) -> Seq<B>,
    start: B,
    one: Seq<B>,
    other: Seq<B>,
)
    requires
        decides(maze, goal, accepts),
        lists(maze, expand, successors),
        found(maze, goal, expand, start, one),
        found(maze, goal, expand, start, other),
    ensures
        one == other,
{
    lemma_found_is_shortest(maze, goal, expand, accepts, successors, start, one);
    lemma_found_is_shortest(maze, goal, expand, accepts, successors, start, other);
    lemma_route_is_certain(maze, goal, expand, accepts, successors, start, one);
    lemma_route_is_certain(maze, goal, expand, accepts, successors, start, other);
    if one != other {
        assert(goes_before(maze, expand, one, other));
        assert(goes_before(maze, expand, other, one));
        let i: int = choose|i: int| #[trigger] parts_first_at(maze, expand, one, other, i);
        let j: int = choose|j: int| #[trigger] parts_first_at(maze, expand, other, one, j);
        lemma_listed_before_differ(maze, expand, successors, one[i - 1], one[i], other[i]);
        lemma_listed_before_differ(maze, expand, successors, other[j - 1], other[j], one[j]);
        if i < j {
            assert(other[i] == one[i]);
        } else if j < i {
            assert(one[j] == other[j]);
        }
        assert(one[i - 1] == other[i - 1]);
    }
}

/// A state is expanded at most once: the nodes that have children hold
/// different states.
pub proof fn lemma_expanded_once<A, B, G: Fn(&A, &B) -> bool, E: Fn(&A, &B) -> Vec<B>>(
    maze: &A,
    goal: G,
    expand: E,
    start: B,
    nodes: Seq<SearchTreeNode<B>>,
    head: int,
    seen: Set<B>,
    c: int,
    d: int,
)
    requires
        searching(maze, goal, expand, start, nodes, head, seen),
        1 <= c < nodes.len(),
        1 <= d < nodes.len(),
        nodes[nodes[c].parent as int].node == nodes[nodes[d].parent as int].node,
    ensures
        nodes[c].parent == nodes[d].parent,
{
    assert(first_seen(nodes, nodes[c].parent as int));
    assert(first_seen(nodes, nodes[d].parent as int));
}

} // verus!
