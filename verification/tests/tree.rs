use generalsearch::tree::SearchTree;

fn sample() -> SearchTree<char> {
    // a
    // ├─ b
    // │  ├─ d
    // │  └─ e
    // └─ c
    //    └─ f
    let mut tree = SearchTree { nodes: Vec::new() };
    tree.push('a', 0);
    tree.push('b', 0);
    tree.push('c', 0);
    tree.push('d', 1);
    tree.push('e', 1);
    tree.push('f', 2);
    tree
}

#[test]
fn push_numbers_nodes_in_order_of_discovery() {
    let tree = sample();
    assert_eq!(tree.nodes.len(), 6);
    for (i, node) in tree.nodes.iter().enumerate() {
        assert_eq!(node.id, i);
    }
    let parents: Vec<usize> = tree.nodes.iter().map(|n| n.parent).collect();
    assert_eq!(parents, vec![0, 0, 0, 1, 1, 2]);
    let states: Vec<char> = tree.nodes.iter().map(|n| n.node).collect();
    assert_eq!(states, vec!['a', 'b', 'c', 'd', 'e', 'f']);
}

#[test]
fn root_is_its_own_parent() {
    let mut tree = SearchTree { nodes: Vec::new() };
    tree.push(10u8, 0);
    assert_eq!(tree.nodes[0].id, 0);
    assert_eq!(tree.nodes[0].parent, 0);
    assert_eq!(tree.nodes[0].node, 10);
}

#[test]
fn to_vec_of_the_root_is_the_root_alone() {
    let tree = sample();
    assert_eq!(tree.to_vec(0), vec!['a']);
}

#[test]
fn to_vec_runs_from_the_root_to_the_node() {
    let tree = sample();
    assert_eq!(tree.to_vec(1), vec!['a', 'b']);
    assert_eq!(tree.to_vec(2), vec!['a', 'c']);
    assert_eq!(tree.to_vec(3), vec!['a', 'b', 'd']);
    assert_eq!(tree.to_vec(4), vec!['a', 'b', 'e']);
    assert_eq!(tree.to_vec(5), vec!['a', 'c', 'f']);
}

#[test]
fn to_vec_follows_a_long_chain() {
    let mut tree = SearchTree { nodes: Vec::new() };
    tree.push(0u32, 0);
    for i in 1..100u32 {
        tree.push(i, (i - 1) as usize);
    }
    let expected: Vec<u32> = (0..100).collect();
    assert_eq!(tree.to_vec(99), expected);
    assert_eq!(tree.to_vec(41).len(), 42);
}

#[test]
fn to_vec_leaves_the_tree_unchanged() {
    let tree = sample();
    let first = tree.to_vec(5);
    let second = tree.to_vec(5);
    assert_eq!(first, second);
    assert_eq!(tree.nodes.len(), 6);
}

#[test]
fn to_vec_repeats_a_state_held_by_several_nodes() {
    let mut tree = SearchTree { nodes: Vec::new() };
    tree.push(1u8, 0);
    tree.push(2u8, 0);
    tree.push(1u8, 1);
    assert_eq!(tree.to_vec(2), vec![1, 2, 1]);
}
