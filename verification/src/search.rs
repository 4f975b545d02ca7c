//! The traversal engine.

use crate::graph::{
    callable, certain_route, expandable, expandable_states, expandable_within, goes_before,
    may_accept, may_reject, must_accept, search_ends, search_walk,
};
use crate::order::lemma_goes_before;
use crate::progress::{
    grown_by, lemma_grow, lemma_no_shorter_route, lemma_path_is_search_walk, lemma_skip,
    lemma_start, searching,
};
use crate::tree::{clone_is_faithful, path_to, SearchTree, SearchTreeNode};
use std::collections::HashSet;
use std::collections::VecDeque;
use std::hash::Hash;
use vstd::prelude::*;
use vstd::std_specs::hash::obeys_key_model;

verus! {

/// The frontier holds the identifiers from `head` up to `len`, in order.
pub open spec fn queued(moves: Seq<usize>, head: int, len: int) -> bool {
    &&& 0 <= head <= len
    &&& moves.len() == len - head
    &&& forall|i: int| 0 <= i < moves.len() ==> #[trigger] moves[i] == head + i
}

/// `path` is what a search from `start` returns when it finds a goal: a
/// walk from `start` that the search may follow, to a state that `goal` may
/// accept, no longer than any route that is certain to be there, and before
/// every other such route of its own length.
pub open spec fn found<A, B, G: Fn(&A, &B) -> bool, E: Fn(&A, &B) -> Vec<B>>(
    maze: &A,
    goal: G,
    expand: E,
    start: B,
    path: Seq<B>,
) -> bool {
    &&& search_walk(maze, goal, expand, path)
    &&& path[0] == start
    &&& may_accept(maze, goal, path.last())
    &&& forall|q: Seq<B>| #[trigger]
        certain_route(maze, goal, expand, start, q) ==> path.len() <= q.len()
    &&& forall|q: Seq<B>| #[trigger]
        certain_route(maze, goal, expand, start, q) && q.len() == path.len() && q != path
            ==> goes_before(maze, expand, path, q)
}

/// No route from `start` to a goal is certain to be there.
pub open spec fn exhausted<A, B, G: Fn(&A, &B) -> bool, E: Fn(&A, &B) -> Vec<B>>(
    maze: &A,
    goal: G,
    expand: E,
    start: B,
) -> bool {
    forall|q: Seq<B>| !#[trigger] certain_route(maze, goal, expand, start, q)
}

/// When the node at the head of the frontier holds a state that has not
/// been visited and that `goal` may accept, the path to it is what the
/// search returns.
pub proof fn lemma_head_is_found<A, B, G: Fn(&A, &B) -> bool, E: Fn(&A, &B) -> Vec<B>>(
    maze: &A,
    goal: G,
    expand: E,
    start: B,
    nodes: Seq<SearchTreeNode<B>>,
    head: int,
    seen: Set<B>,
)
    requires
        searching(maze, goal, expand, start, nodes, head, seen),
        head < nodes.len(),
        !seen.contains(nodes[head].node),
        may_accept(maze, goal, nodes[head].node),
    ensures
        found(maze, goal, expand, start, path_to(nodes, head)),
        must_accept(maze, goal, start) ==> path_to(nodes, head) == seq![start],
{
    let path = path_to(nodes, head);
    lemma_path_is_search_walk(maze, goal, expand, start, nodes, head, seen, head);
    assert forall|q: Seq<B>| #[trigger]
        certain_route(maze, goal, expand, start, q) implies path.len() <= q.len() by {
        lemma_no_shorter_route(maze, goal, expand, start, nodes, head, seen, q);
    }
    assert forall|q: Seq<B>| #[trigger]
        certain_route(maze, goal, expand, start, q) && q.len() == path.len() && q
            != path implies goes_before(maze, expand, path, q) by {
        lemma_goes_before(maze, goal, expand, start, nodes, head, seen, q);
    }
    if must_accept(maze, goal, start) {
        assert(certain_route(maze, goal, expand, start, seq![start]));
        assert(path =~= seq![start]);
    }
}

/// When the frontier is empty, no route to a goal is certain to be there.
pub proof fn lemma_frontier_is_empty<A, B, G: Fn(&A, &B) -> bool, E: Fn(&A, &B) -> Vec<B>>(
    maze: &A,
    goal: G,
    expand: E,
    start: B,
    nodes: Seq<SearchTreeNode<B>>,
    head: int,
    seen: Set<B>,
)
    requires
        searching(maze, goal, expand, start, nodes, head, seen),
        head == nodes.len(),
    ensures
        exhausted(maze, goal, expand, start),
        !must_accept(maze, goal, start),
{
    assert forall|q: Seq<B>| !#[trigger] certain_route(maze, goal, expand, start, q) by {
        if certain_route(maze, goal, expand, start, q) {
            lemma_no_shorter_route(maze, goal, expand, start, nodes, head, seen, q);
        }
    }
    if must_accept(maze, goal, start) {
        assert(certain_route(maze, goal, expand, start, seq![start]));
    }
}

/// `open` is a finite set that holds every state that a search from
/// `start` comes to expand: all that it may come to expand, or those that it
/// may come to expand within the number of steps of `route`, which is
/// certain to be there.
pub open spec fn limits<A, B, G: Fn(&A, &B) -> bool, E: Fn(&A, &B) -> Vec<B>>(
    maze: &A,
    goal: G,
    expand: E,
    start: B,
    route: Seq<B>,
    open: Set<B>,
) -> bool {
    &&& open.finite()
    &&& {
        ||| open == expandable_states(maze, goal, expand, start)
        ||| certain_route(maze, goal, expand, start, route) && open == expandable_within(
            maze,
            goal,
            expand,
            start,
            route.len() - 1,
        )
    }
}

/// The states that still can come to be expanded become fewer when the
/// state of the node at the head of the frontier, which has not been
/// visited and which `goal` may reject, is visited.
pub proof fn lemma_fewer_left<A, B, G: Fn(&A, &B) -> bool, E: Fn(&A, &B) -> Vec<B>>(
    maze: &A,
    goal: G,
    expand: E,
    start: B,
    nodes: Seq<SearchTreeNode<B>>,
    head: int,
    seen: Set<B>,
    route: Seq<B>,
    open: Set<B>,
)
    requires
        searching(maze, goal, expand, start, nodes, head, seen),
        head < nodes.len(),
        !seen.contains(nodes[head].node),
        may_reject(maze, goal, nodes[head].node),
        limits(maze, goal, expand, start, route, open),
    ensures
        open.difference(seen.insert(nodes[head].node)).len() < open.difference(seen).len(),
{
    let path = path_to(nodes, head);
    lemma_path_is_search_walk(maze, goal, expand, start, nodes, head, seen, head);
    assert(open.contains(nodes[head].node)) by {
        if open != expandable_states(maze, goal, expand, start) {
            lemma_no_shorter_route(maze, goal, expand, start, nodes, head, seen, route);
            assert(search_walk(maze, goal, expand, path) && path[0] == start && path.last()
                == nodes[head].node && path.len() <= route.len() - 1 + 1);
        }
    }
    assert(open.difference(seen.insert(nodes[head].node)) =~= open.difference(seen).remove(
        nodes[head].node,
    ));
}

/// Searches breadth first from `initial_state` for a state that
/// `final_state` accepts, following the successors that `get_new_states`
/// lists in the order in which it lists them, and returns the states of
/// one shortest path, both ends included, or `None` where there is none.
///
/// A state is tested when it leaves the frontier, before it is expanded,
/// and a state that has been expanded is not tested or expanded again. So
/// the callbacks need to accept only the states that the search can come
/// to, and `get_new_states` only those that `final_state` rejects.
///
/// The search has to come to an end: the states that it can come to expand
/// are finitely many, or a goal is in reach. States are told apart by `==`
/// and found again by their hash, and a clone of a state has to be that
/// state.
///
/// Of all routes to a goal the path returned has the fewest steps; among
/// those it is the one that takes, wherever two of them part ways, the
/// successor listed first.
pub fn breadth_first_search<A, B: Hash + Eq + Clone>(
    maze: &A,
    initial_state: B,
    final_state: impl Fn(&A, &B) -> bool,
    get_new_states: impl Fn(&A, &B) -> Vec<B>,
) -> (res: Option<Vec<B>>)
    requires
        obeys_key_model::<B>(),
        clone_is_faithful::<B>(),
        callable(maze, final_state, get_new_states, initial_state),
        search_ends(maze, final_state, get_new_states, initial_state),
    ensures
        res matches Some(path) ==> found(
            maze,
            final_state,
            get_new_states,
            initial_state,
            path@,
        ),
        res is None ==> exhausted(maze, final_state, get_new_states, initial_state),
        must_accept(maze, final_state, initial_state) ==> (res matches Some(path) && path@
            == seq![initial_state]),
{
    let ghost start = initial_state;
    // A finite set outside of which nothing is expanded; each expansion
    // takes one state out of what is left of it.
    let ghost route = choose|q: Seq<B>| #[trigger]
        certain_route(maze, final_state, get_new_states, start, q) && expandable_within(
            maze,
            final_state,
            get_new_states,
            start,
            q.len() - 1,
        ).finite();
    let ghost open = if expandable_states(maze, final_state, get_new_states, start).finite() {
        expandable_states(maze, final_state, get_new_states, start)
    } else {
        expandable_within(maze, final_state, get_new_states, start, route.len() - 1)
    };
    let mut visited: HashSet<B> = HashSet::new();
    let mut tree: SearchTree<B> = SearchTree { nodes: Vec::new() };
    let mut moves: VecDeque<usize> = VecDeque::new();

    tree.push(initial_state, 0);
    moves.push_back(0);
    proof {
        lemma_start(maze, final_state, get_new_states, start, tree@);
    }

    loop
        invariant
            obeys_key_model::<B>(),
            clone_is_faithful::<B>(),
            callable(maze, final_state, get_new_states, start),
            start == initial_state,
            limits(maze, final_state, get_new_states, start, route, open),
            tree.wf(),
            queued(moves@, tree@.len() - moves@.len(), tree@.len() as int),
            searching(
                maze,
                final_state,
                get_new_states,
                start,
                tree@,
                tree@.len() - moves@.len(),
                visited@,
            ),
        decreases open.difference(visited@).len(), moves@.len(),
    {
        let ghost head: int = tree@.len() - moves@.len();
        let ghost nodes = tree@;
        let ghost seen = visited@;
        match moves.pop_front() {
            Some(m) => {
                proof {
                    lemma_path_is_search_walk(
                        maze,
                        final_state,
                        get_new_states,
                        start,
                        nodes,
                        head,
                        seen,
                        head,
                    );
                    assert forall|i: int| 0 <= i < moves@.len() implies #[trigger] moves@[i] == head
                        + 1 + i by {}
                }
                if visited.contains(&tree.nodes[m].node) {
                    proof {
                        lemma_skip(maze, final_state, get_new_states, start, nodes, head, seen);
                    }
                    continue ;
                }
                if final_state(maze, &tree.nodes[m].node) {
                    let path = tree.to_vec(m);
                    proof {
                        lemma_head_is_found(
                            maze,
                            final_state,
                            get_new_states,
                            start,
                            nodes,
                            head,
                            seen,
                        );
                    }
                    return Some(path);
                }
                assert(expandable(
                    maze,
                    final_state,
                    get_new_states,
                    start,
                    nodes[head].node,
                ));
                let new_moves = get_new_states(maze, &tree.nodes[m].node);
                let ghost listed = new_moves;
                for new_move in it: new_moves
                    invariant
                        it.seq() == listed@,
                        tree.wf(),
                        m == head,
                        head < nodes.len(),
                        tree@.len() == nodes.len() + it.index(),
                        grown_by(nodes, tree@, head, listed@.take(it.index())),
                        queued(moves@, head + 1, tree@.len() as int),
                {
                    moves.push_back(tree.nodes.len());
                    tree.push(new_move, tree.nodes[m].id);
                }
                visited.insert(tree.nodes[m].node.clone());
                proof {
                    assert(listed@.take(listed@.len() as int) =~= listed@);
                    lemma_grow(
                        maze,
                        final_state,
                        get_new_states,
                        start,
                        nodes,
                        head,
                        seen,
                        listed,
                        tree@,
                    );
                    lemma_fewer_left(
                        maze,
                        final_state,
                        get_new_states,
                        start,
                        nodes,
                        head,
                        seen,
                        route,
                        open,
                    );
                }
            },
            None => {
                proof {
                    lemma_frontier_is_empty(
                        maze,
                        final_state,
                        get_new_states,
                        start,
                        nodes,
                        head,
                        seen,
                    );
                }
                return None;
            },
        }
    }
}

} // verus!
