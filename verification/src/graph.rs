//! The state space as the two callbacks describe it.
//!
//! A callback is known to the engine only through its postcondition, which
//! relates an argument to the answers it can give. Two readings of that
//! relation are needed. What the search has observed is something the
//! callback *may* answer; what a caller can promise in advance is something
//! it *must* answer. For callbacks that are functions the two coincide.

use vstd::prelude::*;

verus! {

/// `goal` can answer `false` on `s`.
pub open spec fn may_reject<A, B, G: Fn(&A, &B) -> bool>(maze: &A, goal: G, s: B) -> bool {
    goal.ensures((maze, &s), false)
}

/// `goal` can answer `true` on `s`.
pub open spec fn may_accept<A, B, G: Fn(&A, &B) -> bool>(maze: &A, goal: G, s: B) -> bool {
    goal.ensures((maze, &s), true)
}

/// `goal` cannot answer `false` on `s`.
pub open spec fn must_accept<A, B, G: Fn(&A, &B) -> bool>(maze: &A, goal: G, s: B) -> bool {
    !goal.ensures((maze, &s), false)
}

/// Some result of `expand` on `s` lists `t`.
pub open spec fn may_step<A, B, E: Fn(&A, &B) -> Vec<B>>(maze: &A, expand: E, s: B, t: B) -> bool {
    exists|v: Vec<B>| #[trigger] expand.ensures((maze, &s), v) && v@.contains(t)
}

/// Every result of `expand` on `s` lists `t`.
pub open spec fn must_step<A, B, E: Fn(&A, &B) -> Vec<B>>(maze: &A, expand: E, s: B, t: B) -> bool {
    forall|v: Vec<B>| #[trigger] expand.ensures((maze, &s), v) ==> v@.contains(t)
}

/// A non-empty sequence of states, each of which may lead to the next.
pub open spec fn may_walk<A, B, E: Fn(&A, &B) -> Vec<B>>(maze: &A, expand: E, p: Seq<B>) -> bool {
    &&& p.len() > 0
    &&& forall|i: int| 0 <= i < p.len() - 1 ==> may_step(maze, expand, #[trigger] p[i], p[i + 1])
}

/// A non-empty sequence of states, each of which must lead to the next.
pub open spec fn must_walk<A, B, E: Fn(&A, &B) -> Vec<B>>(maze: &A, expand: E, p: Seq<B>) -> bool {
    &&& p.len() > 0
    &&& forall|i: int| 0 <= i < p.len() - 1 ==> must_step(maze, expand, #[trigger] p[i], p[i + 1])
}

/// A walk that a search may follow: it goes on only from states that `goal`
/// may reject.
pub open spec fn search_walk<A, B, G: Fn(&A, &B) -> bool, E: Fn(&A, &B) -> Vec<B>>(
    maze: &A,
    goal: G,
    expand: E,
    p: Seq<B>,
) -> bool {
    &&& may_walk(maze, expand, p)
    &&& forall|i: int| 0 <= i < p.len() - 1 ==> may_reject(maze, goal, #[trigger] p[i])
}

/// A search that starts at `start` may come to test `t`.
pub open spec fn explorable<A, B, G: Fn(&A, &B) -> bool, E: Fn(&A, &B) -> Vec<B>>(
    maze: &A,
    goal: G,
    expand: E,
    start: B,
    t: B,
) -> bool {
    exists|p: Seq<B>| #[trigger]
        search_walk(maze, goal, expand, p) && p[0] == start && p.last() == t
}

/// A search that starts at `start` may come to expand `t`.
pub open spec fn expandable<A, B, G: Fn(&A, &B) -> bool, E: Fn(&A, &B) -> Vec<B>>(
    maze: &A,
    goal: G,
    expand: E,
    start: B,
    t: B,
) -> bool {
    explorable(maze, goal, expand, start, t) && may_reject(maze, goal, t)
}

/// The states that a search from `start` may come to expand.
pub open spec fn expandable_states<A, B, G: Fn(&A, &B) -> bool, E: Fn(&A, &B) -> Vec<B>>(
    maze: &A,
    goal: G,
    expand: E,
    start: B,
) -> Set<B> {
    Set::new(|t: B| expandable(maze, goal, expand, start, t))
}

/// The states that a search from `start` may come to expand after at most
/// `steps` steps.
pub open spec fn expandable_within<A, B, G: Fn(&A, &B) -> bool, E: Fn(&A, &B) -> Vec<B>>(
    maze: &A,
    goal: G,
    expand: E,
    start: B,
    steps: int,
) -> Set<B> {
    Set::new(
        |t: B|
            may_reject(maze, goal, t) && exists|p: Seq<B>| #[trigger]
                search_walk(maze, goal, expand, p) && p[0] == start && p.last() == t && p.len()
                    <= steps + 1,
    )
}

/// A walk from `start` that is there whatever the callbacks answer, and
/// that ends in a state that `goal` must accept.
pub open spec fn certain_route<A, B, G: Fn(&A, &B) -> bool, E: Fn(&A, &B) -> Vec<B>>(
    maze: &A,
    goal: G,
    expand: E,
    start: B,
    q: Seq<B>,
) -> bool {
    &&& must_walk(maze, expand, q)
    &&& q[0] == start
    &&& must_accept(maze, goal, q.last())
}

/// A search from `start` comes to an end: either the states that it may
/// come to expand are finitely many, or a route to a goal is certain to be
/// there and the states that the search may come to expand within the
/// number of steps of that route are finitely many.
pub open spec fn search_ends<A, B, G: Fn(&A, &B) -> bool, E: Fn(&A, &B) -> Vec<B>>(
    maze: &A,
    goal: G,
    expand: E,
    start: B,
) -> bool {
    ||| expandable_states(maze, goal, expand, start).finite()
    ||| exists|q: Seq<B>| #[trigger]
        certain_route(maze, goal, expand, start, q) && expandable_within(
            maze,
            goal,
            expand,
            start,
            q.len() - 1,
        ).finite()
}

/// The callbacks can be called wherever a search from `start` may call
/// them: `goal` on every state that it may come to test, `expand` on every
/// state that it may come to expand.
pub open spec fn callable<A, B, G: Fn(&A, &B) -> bool, E: Fn(&A, &B) -> Vec<B>>(
    maze: &A,
    goal: G,
    expand: E,
    start: B,
) -> bool {
    &&& forall|t: B| #[trigger]
        explorable(maze, goal, expand, start, t) ==> goal.requires((maze, &t))
    &&& forall|t: B| #[trigger]
        expandable(maze, goal, expand, start, t) ==> expand.requires((maze, &t))
}

/// `t` stands at index `k` of `w` and nowhere before.
pub open spec fn first_at<B>(w: Seq<B>, t: B, k: int) -> bool {
    &&& 0 <= k < w.len()
    &&& w[k] == t
    &&& forall|j: int| 0 <= j < k ==> #[trigger] w[j] != t
}

/// Some result of `expand` on `s` lists both `t` and `u`, and `t` first.
pub open spec fn listed_before<A, B, E: Fn(&A, &B) -> Vec<B>>(
    maze: &A,
    expand: E,
    s: B,
    t: B,
    u: B,
) -> bool {
    exists|v: Vec<B>, a: int, b: int|
        #![trigger expand.ensures((maze, &s), v), first_at(v@, t, a), first_at(v@, u, b)]
        expand.ensures((maze, &s), v) && first_at(v@, t, a) && first_at(v@, u, b) && a < b
}

/// `p` and `q` agree up to index `i`, where `expand` lists the state that
/// `p` goes to before the one that `q` goes to.
pub open spec fn parts_first_at<A, B, E: Fn(&A, &B) -> Vec<B>>(
    maze: &A,
    expand: E,
    p: Seq<B>,
    q: Seq<B>,
    i: int,
) -> bool {
    &&& 0 < i < p.len()
    &&& i < q.len()
    &&& forall|j: int| 0 <= j < i ==> #[trigger] p[j] == q[j]
    &&& listed_before(maze, expand, p[i - 1], p[i], q[i])
}

/// Where `p` and `q` part ways, `p` takes the successor listed first.
pub open spec fn goes_before<A, B, E: Fn(&A, &B) -> Vec<B>>(
    maze: &A,
    expand: E,
    p: Seq<B>,
    q: Seq<B>,
) -> bool {
    exists|i: int| #[trigger] parts_first_at(maze, expand, p, q, i)
}

} // verus!
