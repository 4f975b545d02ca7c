//! Which of the shortest paths a search returns.
//!
//! Nodes leave the frontier in the order in which they were appended, and
//! the successors of a node are appended in the order in which they were
//! listed. So of two shortest routes the search finds first the one that,
//! where the two part ways, takes the successor listed first.

use crate::graph::{
    certain_route, first_at, goes_before, listed_before, must_accept, must_step, must_walk,
    parts_first_at,
};
use crate::progress::{block, first_seen, lemma_first_occurrence, searching};
use crate::tree::{lemma_trail, path_to, trail, SearchTreeNode};
use vstd::prelude::*;

verus! {

/// The first index at which two different sequences of one length differ,
/// looked for from `from` on.
pub proof fn lemma_first_difference<B>(p: Seq<B>, q: Seq<B>, from: int) -> (i: int)
    requires
        p.len() == q.len(),
        p != q,
        0 <= from <= p.len(),
        forall|j: int| 0 <= j < from ==> p[j] == q[j],
    ensures
        from <= i < p.len(),
        p[i] != q[i],
        forall|j: int| 0 <= j < i ==> p[j] == q[j],
    decreases p.len() - from,
{
    if from == p.len() {
        assert(p =~= q);
        from
    } else if p[from] != q[from] {
        from
    } else {
        lemma_first_difference(p, q, from + 1)
    }
}

/// The first index at which `t` stands in `w`, looked for from `from` on.
pub proof fn lemma_first_index<B>(w: Seq<B>, t: B, from: int) -> (k: int)
    requires
        w.contains(t),
        0 <= from <= w.len(),
        forall|j: int| 0 <= j < from ==> w[j] != t,
    ensures
        first_at(w, t, k),
    decreases w.len() - from,
{
    if from == w.len() {
        let at = choose|at: int| 0 <= at < w.len() && w[at] == t;
        assert(w[at] != t);
        from
    } else if w[from] == t {
        from
    } else {
        lemma_first_index(w, t, from + 1)
    }
}

/// No node that holds the state at index `k` of a route stands before the
/// node at index `k` of the trail to the head of the frontier, where the
/// route is certain to be there, is as long as the path to the head and
/// ends in a state that `goal` must accept.
pub proof fn lemma_not_overtaken<A, B, G: Fn(&A, &B) -> bool, E: Fn(&A, &B) -> Vec<B>>(
    maze: &A,
    goal: G,
    expand: E,
    start: B,
    nodes: Seq<SearchTreeNode<B>>,
    head: int,
    seen: Set<B>,
    q: Seq<B>,
    k: int,
    c: int,
)
    requires
        searching(maze, goal, expand, start, nodes, head, seen),
        head < nodes.len(),
        must_walk(maze, expand, q),
        must_accept(maze, goal, q.last()),
        q.len() == trail(nodes, head).len(),
        0 <= k < q.len(),
        0 <= c < nodes.len(),
        nodes[c].node == q[k],
    ensures
        trail(nodes, head)[k] <= c,
    decreases q.len() - k,
{
    let t = trail(nodes, head);
    lemma_trail(nodes, head);
    if c < t[k] {
        if k == q.len() - 1 {
            assert(seen.contains(nodes[c].node));
        } else {
            let next: int = t[k + 1];
            assert(nodes[next].parent == t[k]);
            assert(t[k] < head);
            let e: int = lemma_first_occurrence(nodes, c);
            let (v, b) = choose|v: Vec<B>, b: int|
                #![trigger expand.ensures((maze, &nodes[e].node), v), block(nodes, e, b, v@)]
                expand.ensures((maze, &nodes[e].node), v) && block(nodes, e, b, v@);
            assert(must_step(maze, expand, q[k], q[k + 1]));
            assert(v@.contains(q[k + 1]));
            let at = choose|at: int| 0 <= at < v@.len() && v@[at] == q[k + 1];
            let child: int = b + at;
            assert(nodes[child].node == v@[child - b] && nodes[child].parent == e);
            lemma_not_overtaken(maze, goal, expand, start, nodes, head, seen, q, k + 1, child);
            assert(nodes[next].parent <= nodes[child].parent);
        }
    }
}

/// When the node at the head of the frontier holds a state that has not
/// been visited, the path to it goes before every other route of its length
/// that is certain to be there and ends in a state that `goal` must accept.
pub proof fn lemma_goes_before<A, B, G: Fn(&A, &B) -> bool, E: Fn(&A, &B) -> Vec<B>>(
    maze: &A,
    goal: G,
    expand: E,
    start: B,
    nodes: Seq<SearchTreeNode<B>>,
    head: int,
    seen: Set<B>,
    q: Seq<B>,
)
    requires
        searching(maze, goal, expand, start, nodes, head, seen),
        head < nodes.len(),
        !seen.contains(nodes[head].node),
        certain_route(maze, goal, expand, start, q),
        q.len() == path_to(nodes, head).len(),
        q != path_to(nodes, head),
    ensures
        goes_before(maze, expand, path_to(nodes, head), q),
{
    let p = path_to(nodes, head);
    let t = trail(nodes, head);
    lemma_trail(nodes, head);
    assert(p[0] == q[0]);
    let i: int = lemma_first_difference(p, q, 1);
    let up: int = t[i - 1];
    let down: int = t[i];
    assert(nodes[down].parent == up);
    assert(first_seen(nodes, nodes[down].parent as int));
    assert(up < head);
    let (v, b) = choose|v: Vec<B>, b: int|
        #![trigger expand.ensures((maze, &nodes[up].node), v), block(nodes, up, b, v@)]
        expand.ensures((maze, &nodes[up].node), v) && block(nodes, up, b, v@);
    let mine: int = down - b;
    assert(first_seen(nodes, down)) by {
        if i == t.len() - 1 {
            assert forall|j: int| 0 <= j < down implies (#[trigger] nodes[j]).node
                != nodes[down].node by {
                assert(seen.contains(nodes[j].node));
            }
        } else {
            assert(nodes[t[i + 1]].parent == down);
            assert(first_seen(nodes, nodes[t[i + 1]].parent as int));
        }
    }
    assert(first_at(v@, p[i], mine)) by {
        assert(nodes[down].node == v@[down - b]);
        assert forall|j: int| 0 <= j < mine implies #[trigger] v@[j] != p[i] by {
            assert(nodes[b + j].node == v@[b + j - b]);
        }
    }
    assert(must_step(maze, expand, q[i - 1], q[i - 1 + 1]));
    assert(v@.contains(q[i]));
    let theirs: int = lemma_first_index(v@, q[i], 0);
    if theirs < mine {
        let c: int = b + theirs;
        assert(nodes[c].node == v@[c - b]);
        lemma_not_overtaken(maze, goal, expand, start, nodes, head, seen, q, i, c);
    }
    assert(expand.ensures((maze, &p[i - 1]), v) && first_at(v@, p[i], mine) && first_at(
        v@,
        q[i],
        theirs,
    ) && mine < theirs);
    assert(listed_before(maze, expand, p[i - 1], p[i], q[i]));
    assert(parts_first_at(maze, expand, p, q, i));
}

} // verus!
