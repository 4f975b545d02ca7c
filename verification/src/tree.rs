//! The search tree: one record per discovered state, linked to the record
//! that produced it, so that a path is rebuilt once instead of being carried
//! along with every frontier entry.

use vstd::prelude::*;

verus! {

/// One discovered state, its own position in the tree and the position of
/// the node whose expansion produced it. The root is its own parent.
pub struct SearchTreeNode<B> {
    pub node: B,
    pub id: usize,
    pub parent: usize,
}

/// An append-only sequence of nodes, indexed by identifier.
pub struct SearchTree<B> {
    pub nodes: Vec<SearchTreeNode<B>>,
}

/// A clone of a state is that state.
pub open spec fn clone_is_faithful<B: Clone>() -> bool {
    forall|a: B, b: B| call_ensures(B::clone, (&a,), b) ==> a == b
}

/// Identifiers are dense, the root is its own parent, and every other node
/// points strictly backwards.
pub open spec fn well_linked<B>(nodes: Seq<SearchTreeNode<B>>) -> bool {
    forall|i: int|
        0 <= i < nodes.len() ==> {
            &&& (#[trigger] nodes[i]).id == i
            &&& (i == 0 ==> nodes[i].parent == 0)
            &&& (i > 0 ==> nodes[i].parent < i)
        }
}

/// The states from the root down to node `end`, both included.
pub open spec fn path_to<B>(nodes: Seq<SearchTreeNode<B>>, end: int) -> Seq<B>
    decreases end,
{
    if 0 < end < nodes.len() && nodes[end].parent < end {
        path_to(nodes, nodes[end].parent as int).push(nodes[end].node)
    } else if 0 <= end < nodes.len() {
        seq![nodes[end].node]
    } else {
        Seq::empty()
    }
}

/// The number of steps from the root down to node `end`.
pub open spec fn depth<B>(nodes: Seq<SearchTreeNode<B>>, end: int) -> int {
    path_to(nodes, end).len() - 1
}

/// A path starts at the root's state, ends at the state of its last node
/// and is one longer than the path to that node's parent.
pub proof fn lemma_path_ends<B>(nodes: Seq<SearchTreeNode<B>>, end: int)
    requires
        well_linked(nodes),
        0 <= end < nodes.len(),
    ensures
        path_to(nodes, end).len() >= 1,
        path_to(nodes, end)[0] == nodes[0].node,
        path_to(nodes, end).last() == nodes[end].node,
        end > 0 ==> depth(nodes, end) == depth(nodes, nodes[end].parent as int) + 1,
        end > 0 ==> path_to(nodes, end).drop_last() == path_to(nodes, nodes[end].parent as int),
        end == 0 ==> depth(nodes, end) == 0,
    decreases end,
{
    if end > 0 {
        let up: int = nodes[end].parent as int;
        lemma_path_ends(nodes, up);
        assert(path_to(nodes, end).drop_last() =~= path_to(nodes, up));
    }
}

/// The identifiers of the nodes from the root down to node `end`.
pub open spec fn trail<B>(nodes: Seq<SearchTreeNode<B>>, end: int) -> Seq<int>
    decreases end,
{
    if 0 < end < nodes.len() && nodes[end].parent < end {
        trail(nodes, nodes[end].parent as int).push(end)
    } else if 0 <= end < nodes.len() {
        seq![end]
    } else {
        Seq::empty()
    }
}

/// The trail to a node names the nodes whose states make up the path to
/// it: it starts at the root, ends at the node, and each of its nodes is
/// the parent of the next.
pub proof fn lemma_trail<B>(nodes: Seq<SearchTreeNode<B>>, end: int)
    requires
        well_linked(nodes),
        0 <= end < nodes.len(),
    ensures
        trail(nodes, end).len() == path_to(nodes, end).len(),
        trail(nodes, end)[0] == 0,
        trail(nodes, end).last() == end,
        forall|k: int|
            0 <= k < trail(nodes, end).len() ==> {
                let at = #[trigger] trail(nodes, end)[k];
                &&& 0 <= at <= end
                &&& path_to(nodes, end)[k] == nodes[at].node
                &&& (k > 0 ==> at > 0 && nodes[at].parent == trail(nodes, end)[k - 1])
            },
    decreases end,
{
    if end > 0 {
        let up: int = nodes[end].parent as int;
        lemma_trail(nodes, up);
        let t = trail(nodes, end);
        let before = trail(nodes, up);
        assert forall|k: int| 0 <= k < t.len() implies {
            &&& 0 <= (#[trigger] t[k]) <= end
            &&& path_to(nodes, end)[k] == nodes[t[k]].node
            &&& (k > 0 ==> t[k] > 0 && nodes[t[k]].parent == t[k - 1])
        } by {
            if k < t.len() - 1 {
                assert(t[k] == before[k]);
                if k > 0 {
                    assert(t[k - 1] == before[k - 1]);
                }
            }
        }
    }
}

impl<B> View for SearchTree<B> {
    type V = Seq<SearchTreeNode<B>>;

    open spec fn view(&self) -> Seq<SearchTreeNode<B>> {
        self.nodes@
    }
}

impl<B: Clone> SearchTree<B> {
    pub open spec fn wf(&self) -> bool {
        well_linked(self@)
    }

    /// Walks the parent links from node `end` back to the root and returns
    /// the states met, root first.
    pub fn to_vec(&self, end: usize) -> (res: Vec<B>)
        requires
            self.wf(),
            end < self@.len(),
            clone_is_faithful::<B>(),
        ensures
            res@ == path_to(self@, end as int),
    {
        let mut back: Vec<B> = Vec::new();
        let mut idx: usize = end;
        loop
            invariant_except_break
                path_to(self@, end as int) == path_to(self@, idx as int) + back@.reverse(),
            invariant
                self.wf(),
                idx < self@.len(),
                clone_is_faithful::<B>(),
            ensures
                path_to(self@, end as int) == back@.reverse(),
            decreases idx,
        {
            let ghost before = back@;
            back.push(self.nodes[idx].node.clone());
            proof {
                assert(back@.reverse() =~= seq![self@[idx as int].node] + before.reverse());
            }
            if idx == 0 {
                break ;
            }
            proof {
                let up: int = self@[idx as int].parent as int;
                assert(path_to(self@, idx as int) + before.reverse() =~= path_to(self@, up)
                    + back@.reverse());
            }
            idx = self.nodes[idx].parent;
        }
        let ghost whole = back@;
        let mut res: Vec<B> = Vec::new();
        while back.len() > 0
            invariant
                back@ == whole.take(back@.len() as int),
                back@.len() <= whole.len(),
                res@ == whole.reverse().take(whole.len() - back@.len()),
            decreases back@.len(),
        {
            let ghost k: int = back@.len() as int;
            let last = back.pop();
            match last {
                Some(state) => {
                    res.push(state);
                },
                None => {},
            }
            proof {
                assert(back@ =~= whole.take(k - 1));
                assert(res@ =~= whole.reverse().take(whole.len() - k + 1));
            }
        }
        proof {
            assert(res@ =~= whole.reverse());
        }
        res
    }

    /// Appends a node for `node`, discovered by expanding node `parent`.
    pub fn push(&mut self, node: B, parent: usize)
        requires
            old(self).wf(),
            parent < old(self)@.len() || (parent == 0 && old(self)@.len() == 0),
        ensures
            final(self).wf(),
            final(self)@ == old(self)@.push(
                SearchTreeNode { node, id: old(self)@.len() as usize, parent },
            ),
    {
        let id: usize = self.nodes.len();
        self.nodes.push(SearchTreeNode { node, id, parent });
    }
}

} // verus!
