//! What holds of the tree, the frontier and the visited set between two
//! iterations of the search, and what follows from it.
//!
//! The frontier always holds the identifiers from some `head` up to the
//! tree's length, so the three structures are described by the tree, `head`
//! and the set of visited states.

use crate::graph::{
    explorable, may_reject, may_step, must_accept, must_step, must_walk, search_walk,
};
use crate::tree::{depth, lemma_path_ends, path_to, well_linked, SearchTreeNode};
use vstd::prelude::*;

verus! {

/// No earlier node holds the state of node `e`.
pub open spec fn first_seen<B>(nodes: Seq<SearchTreeNode<B>>, e: int) -> bool {
    forall|j: int| 0 <= j < e ==> (#[trigger] nodes[j]).node != nodes[e].node
}

/// Later nodes have later parents.
pub open spec fn in_order<B>(nodes: Seq<SearchTreeNode<B>>) -> bool {
    forall|i: int, j: int|
        1 <= i <= j < nodes.len() ==> (#[trigger] nodes[i]).parent <= (#[trigger] nodes[j]).parent
}

/// The children of node `e` are the nodes from `b` on, one for each state
/// of `w`, in the order of `w`.
pub open spec fn block<B>(nodes: Seq<SearchTreeNode<B>>, e: int, b: int, w: Seq<B>) -> bool {
    &&& e < b
    &&& b + w.len() <= nodes.len()
    &&& forall|c: int|
        b <= c < b + w.len() ==> (#[trigger] nodes[c]).node == w[c - b] && nodes[c].parent == e
    &&& forall|c: int|
        1 <= c < nodes.len() && (#[trigger] nodes[c]).parent == e ==> b <= c < b + w.len()
}

/// Node `e` has been expanded: its children are what one call of `expand`
/// on its state returned.
pub open spec fn expanded<A, B, E: Fn(&A, &B) -> Vec<B>>(
    maze: &A,
    expand: E,
    nodes: Seq<SearchTreeNode<B>>,
    e: int,
) -> bool {
    exists|v: Vec<B>, b: int|
        #![trigger expand.ensures((maze, &nodes[e].node), v), block(nodes, e, b, v@)]
        expand.ensures((maze, &nodes[e].node), v) && block(nodes, e, b, v@)
}

/// The state of a search from `start` that has taken the nodes before
/// `head` off the frontier and has visited the states in `seen`.
pub open spec fn searching<A, B, G: Fn(&A, &B) -> bool, E: Fn(&A, &B) -> Vec<B>>(
    maze: &A,
    goal: G,
    expand: E,
    start: B,
    nodes: Seq<SearchTreeNode<B>>,
    head: int,
    seen: Set<B>,
) -> bool {
    &&& well_linked(nodes)
    &&& in_order(nodes)
    &&& 0 <= head <= nodes.len()
    // The root holds the start.
    &&& nodes.len() >= 1
    &&& nodes[0].node == start
    // Only a node that has left the frontier, and that was the first to hold
    // its state, has children.
    &&& forall|c: int| 1 <= c < nodes.len() ==> (#[trigger] nodes[c]).parent < head
    &&& forall|c: int|
        1 <= c < nodes.len() ==> #[trigger] first_seen(nodes, nodes[c].parent as int)
    // The visited states are those of the nodes that have left the frontier,
    // and `goal` rejected each of them.
    &&& forall|j: int| 0 <= j < head ==> seen.contains((#[trigger] nodes[j]).node)
    &&& forall|s: B| #[trigger] seen.contains(s) ==> may_reject(maze, goal, s)
    &&& forall|s: B| #[trigger]
        seen.contains(s) ==> exists|j: int| 0 <= j < head && (#[trigger] nodes[j]).node == s
    // Of the nodes that have left the frontier, each that was the first to
    // hold its state has been expanded.
    &&& forall|e: int|
        0 <= e < head && #[trigger] first_seen(nodes, e) ==> expanded(maze, expand, nodes, e)
}

/// A search starts with the root alone, on the frontier, and nothing
/// visited.
pub proof fn lemma_start<A, B, G: Fn(&A, &B) -> bool, E: Fn(&A, &B) -> Vec<B>>(
    maze: &A,
    goal: G,
    expand: E,
    start: B,
    nodes: Seq<SearchTreeNode<B>>,
)
    requires
        nodes == seq![(SearchTreeNode { node: start, id: 0, parent: 0 })],
    ensures
        searching(maze, goal, expand, start, nodes, 0, Set::empty()),
{
}

/// Taking a node off the frontier whose state has been visited changes
/// nothing else.
pub proof fn lemma_skip<A, B, G: Fn(&A, &B) -> bool, E: Fn(&A, &B) -> Vec<B>>(
    maze: &A,
    goal: G,
    expand: E,
    start: B,
    nodes: Seq<SearchTreeNode<B>>,
    head: int,
    seen: Set<B>,
)
    requires
        searching(maze, goal, expand, start, nodes, head, seen),
        head < nodes.len(),
        seen.contains(nodes[head].node),
    ensures
        searching(maze, goal, expand, start, nodes, head + 1, seen),
{
    assert forall|e: int| 0 <= e < head + 1 && #[trigger] first_seen(nodes, e) implies expanded(
        maze,
        expand,
        nodes,
        e,
    ) by {
        if e == head {
            let j = choose|j: int| 0 <= j < head && (#[trigger] nodes[j]).node == nodes[head].node;
            assert(nodes[j].node == nodes[head].node);
        }
    }
    assert forall|s: B| #[trigger] seen.contains(s) implies exists|j: int|
        0 <= j < head + 1 && (#[trigger] nodes[j]).node == s by {
        let j = choose|j: int| 0 <= j < head && (#[trigger] nodes[j]).node == s;
        assert(0 <= j < head + 1 && nodes[j].node == s);
    }
}

/// The tree `more` is `nodes` followed by one child of node `m` for each
/// state of `w`, in the order of `w`.
pub open spec fn grown_by<B>(
    nodes: Seq<SearchTreeNode<B>>,
    more: Seq<SearchTreeNode<B>>,
    m: int,
    w: Seq<B>,
) -> bool {
    &&& more.len() == nodes.len() + w.len()
    &&& forall|i: int| 0 <= i < nodes.len() ==> #[trigger] more[i] == nodes[i]
    &&& forall|c: int|
        nodes.len() <= c < more.len() ==> {
            &&& (#[trigger] more[c]).node == w[c - nodes.len()]
            &&& more[c].id == c
            &&& more[c].parent == m
        }
}

/// Expanding the node at the head of the frontier, whose state has not been
/// visited and was rejected by `goal`, and then marking that state visited,
/// keeps the search in order.
pub proof fn lemma_grow<A, B, G: Fn(&A, &B) -> bool, E: Fn(&A, &B) -> Vec<B>>(
    maze: &A,
    goal: G,
    expand: E,
    start: B,
    nodes: Seq<SearchTreeNode<B>>,
    head: int,
    seen: Set<B>,
    v: Vec<B>,
    more: Seq<SearchTreeNode<B>>,
)
    requires
        searching(maze, goal, expand, start, nodes, head, seen),
        head < nodes.len(),
        !seen.contains(nodes[head].node),
        may_reject(maze, goal, nodes[head].node),
        expand.ensures((maze, &nodes[head].node), v),
        grown_by(nodes, more, head, v@),
    ensures
        searching(maze, goal, expand, start, more, head + 1, seen.insert(nodes[head].node)),
{
    let n: int = nodes.len() as int;
    let after = seen.insert(nodes[head].node);
    assert(well_linked(more)) by {
        assert forall|i: int| 0 <= i < more.len() implies {
            &&& (#[trigger] more[i]).id == i
            &&& (i == 0 ==> more[i].parent == 0)
            &&& (i > 0 ==> more[i].parent < i)
        } by {
            if i < n {
                assert(more[i] == nodes[i]);
            }
        }
    }
    assert(in_order(more)) by {
        assert forall|i: int, j: int| 1 <= i <= j < more.len() implies (#[trigger] more[i]).parent
            <= (#[trigger] more[j]).parent by {
            if j < n {
                assert(more[i] == nodes[i] && more[j] == nodes[j]);
            } else if i < n {
                assert(more[i] == nodes[i]);
                assert(nodes[i].parent < head);
            }
        }
    }
    assert(first_seen(more, head)) by {
        assert forall|j: int| 0 <= j < head implies (#[trigger] more[j]).node
            != more[head].node by {
            assert(more[j] == nodes[j] && more[head] == nodes[head]);
            assert(seen.contains(nodes[j].node));
        }
    }
    assert forall|c: int| 1 <= c < more.len() implies (#[trigger] more[c]).parent < head + 1 by {
        if c < n {
            assert(more[c] == nodes[c]);
        }
    }
    assert forall|c: int| 1 <= c < more.len() implies #[trigger] first_seen(
        more,
        more[c].parent as int,
    ) by {
        if c < n {
            assert(more[c] == nodes[c]);
            let up: int = nodes[c].parent as int;
            assert(first_seen(nodes, nodes[c].parent as int));
            assert forall|j: int| 0 <= j < up implies (#[trigger] more[j]).node
                != more[up].node by {
                assert(more[j] == nodes[j] && more[up] == nodes[up]);
            }
        }
    }
    assert forall|j: int| 0 <= j < head + 1 implies after.contains((#[trigger] more[j]).node) by {
        assert(more[j] == nodes[j]);
    }
    assert forall|s: B| #[trigger] after.contains(s) implies exists|j: int|
        0 <= j < head + 1 && (#[trigger] more[j]).node == s by {
        if s == nodes[head].node {
            assert(more[head] == nodes[head]);
        } else {
            let j = choose|j: int| 0 <= j < head && (#[trigger] nodes[j]).node == s;
            assert(more[j] == nodes[j]);
        }
    }
    assert forall|e: int| 0 <= e < head + 1 && #[trigger] first_seen(more, e) implies expanded(
        maze,
        expand,
        more,
        e,
    ) by {
        assert(more[e] == nodes[e]);
        if e == head {
            assert(block(more, e, n, v@)) by {
                assert forall|c: int| 1 <= c < more.len() && (#[trigger] more[c]).parent
                    == e implies n <= c < n + v@.len() by {
                    if c < n {
                        assert(more[c] == nodes[c]);
                    }
                }
            }
        } else {
            assert(first_seen(nodes, e)) by {
                assert forall|j: int| 0 <= j < e implies (#[trigger] nodes[j]).node
                    != nodes[e].node by {
                    assert(more[j] == nodes[j]);
                }
            }
            let (ve, b) = choose|ve: Vec<B>, b: int|
                #![trigger expand.ensures((maze, &nodes[e].node), ve), block(nodes, e, b, ve@)]
                expand.ensures((maze, &nodes[e].node), ve) && block(nodes, e, b, ve@);
            assert(block(more, e, b, ve@)) by {
                assert forall|c: int| b <= c < b + ve@.len() implies (#[trigger] more[c]).node
                    == ve@[c - b] && more[c].parent == e by {
                    assert(more[c] == nodes[c]);
                }
                assert forall|c: int| 1 <= c < more.len() && (#[trigger] more[c]).parent
                    == e implies b <= c < b + ve@.len() by {
                    if c < n {
                        assert(more[c] == nodes[c]);
                    }
                }
            }
        }
    }
}

/// The path to every node is a walk that a search from `start` may follow.
pub proof fn lemma_path_is_search_walk<A, B, G: Fn(&A, &B) -> bool, E: Fn(&A, &B) -> Vec<B>>(
    maze: &A,
    goal: G,
    expand: E,
    start: B,
    nodes: Seq<SearchTreeNode<B>>,
    head: int,
    seen: Set<B>,
    end: int,
)
    requires
        searching(maze, goal, expand, start, nodes, head, seen),
        0 <= end < nodes.len(),
    ensures
        search_walk(maze, goal, expand, path_to(nodes, end)),
        path_to(nodes, end)[0] == start,
        path_to(nodes, end).last() == nodes[end].node,
        explorable(maze, goal, expand, start, nodes[end].node),
    decreases end,
{
    let p = path_to(nodes, end);
    lemma_path_ends(nodes, end);
    if end > 0 {
        let up: int = nodes[end].parent as int;
        let before = path_to(nodes, up);
        lemma_path_is_search_walk(maze, goal, expand, start, nodes, head, seen, up);
        lemma_path_ends(nodes, up);
        assert(p =~= before.push(nodes[end].node));
        assert(may_step(maze, expand, nodes[up].node, nodes[end].node)) by {
            assert(first_seen(nodes, nodes[end].parent as int));
            let (v, b) = choose|v: Vec<B>, b: int|
                #![trigger expand.ensures((maze, &nodes[up].node), v), block(nodes, up, b, v@)]
                expand.ensures((maze, &nodes[up].node), v) && block(nodes, up, b, v@);
            assert(nodes[end].node == v@[end - b]);
        }
        assert(seen.contains(nodes[up].node));
        assert forall|i: int| 0 <= i < p.len() - 1 implies may_step(
            maze,
            expand,
            #[trigger] p[i],
            p[i + 1],
        ) && may_reject(maze, goal, p[i]) by {
            if i < p.len() - 2 {
                assert(p[i] == before[i] && p[i + 1] == before[i + 1]);
            }
        }
    }
    assert(search_walk(maze, goal, expand, p) && p[0] == start && p.last() == nodes[end].node);
}

/// Later nodes lie at least as deep as earlier ones.
pub proof fn lemma_depth_ordered<B>(nodes: Seq<SearchTreeNode<B>>, i: int, j: int)
    requires
        well_linked(nodes),
        in_order(nodes),
        0 <= i <= j < nodes.len(),
    ensures
        0 <= depth(nodes, i) <= depth(nodes, j),
    decreases j,
{
    lemma_path_ends(nodes, i);
    lemma_path_ends(nodes, j);
    if i > 0 {
        assert(nodes[i].parent <= nodes[j].parent);
        lemma_depth_ordered(nodes, nodes[i].parent as int, nodes[j].parent as int);
    }
}

/// The first node that holds the state of node `j`.
pub proof fn lemma_first_occurrence<B>(nodes: Seq<SearchTreeNode<B>>, j: int) -> (e: int)
    requires
        0 <= j < nodes.len(),
    ensures
        0 <= e <= j,
        first_seen(nodes, e),
        nodes[e].node == nodes[j].node,
    decreases j,
{
    if first_seen(nodes, j) {
        j
    } else {
        let i = choose|i: int| 0 <= i < j && (#[trigger] nodes[i]).node == nodes[j].node;
        lemma_first_occurrence(nodes, i)
    }
}

/// A search keeps up with every walk that is certain to be there: for each
/// index `k` of such a walk the tree holds a node no deeper than `k` that
/// either holds the walk's state at `k` or is still on the frontier.
pub proof fn lemma_follow<A, B, G: Fn(&A, &B) -> bool, E: Fn(&A, &B) -> Vec<B>>(
    maze: &A,
    goal: G,
    expand: E,
    start: B,
    nodes: Seq<SearchTreeNode<B>>,
    head: int,
    seen: Set<B>,
    q: Seq<B>,
    k: int,
) -> (j: int)
    requires
        searching(maze, goal, expand, start, nodes, head, seen),
        must_walk(maze, expand, q),
        q[0] == start,
        0 <= k < q.len(),
    ensures
        0 <= j < nodes.len(),
        depth(nodes, j) <= k,
        nodes[j].node == q[k] || j >= head,
    decreases k,
{
    if k == 0 {
        lemma_path_ends(nodes, 0);
        0
    } else {
        let i: int = lemma_follow(maze, goal, expand, start, nodes, head, seen, q, k - 1);
        if i >= head {
            i
        } else {
            let e: int = lemma_first_occurrence(nodes, i);
            lemma_depth_ordered(nodes, e, i);
            let (v, b) = choose|v: Vec<B>, b: int|
                #![trigger expand.ensures((maze, &nodes[e].node), v), block(nodes, e, b, v@)]
                expand.ensures((maze, &nodes[e].node), v) && block(nodes, e, b, v@);
            assert(must_step(maze, expand, q[k - 1], q[k]));
            assert(v@.contains(q[k]));
            let at = choose|at: int| 0 <= at < v@.len() && v@[at] == q[k];
            let c: int = b + at;
            assert(nodes[c].node == v@[c - b] && nodes[c].parent == e);
            lemma_path_ends(nodes, c);
            c
        }
    }
}

/// No walk that is certain to be there reaches, in fewer steps than the
/// depth of the node at the head of the frontier, a state that `goal` must
/// accept.
pub proof fn lemma_no_shorter_route<A, B, G: Fn(&A, &B) -> bool, E: Fn(&A, &B) -> Vec<B>>(
    maze: &A,
    goal: G,
    expand: E,
    start: B,
    nodes: Seq<SearchTreeNode<B>>,
    head: int,
    seen: Set<B>,
    q: Seq<B>,
)
    requires
        searching(maze, goal, expand, start, nodes, head, seen),
        must_walk(maze, expand, q),
        q[0] == start,
        must_accept(maze, goal, q.last()),
    ensures
        head < nodes.len(),
        path_to(nodes, head).len() <= q.len(),
{
    let j: int = lemma_follow(maze, goal, expand, start, nodes, head, seen, q, q.len() - 1);
    if j < head {
        assert(seen.contains(nodes[j].node));
    } else {
        lemma_depth_ordered(nodes, head, j);
    }
}

} // verus!
