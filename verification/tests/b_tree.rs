use jordan_db::db::b_tree::{BTree, Node};

fn tree_of(t: usize, keys: &[u16]) -> BTree {
    let mut tree = BTree::new(t);
    for k in keys {
        tree.insert(*k);
    }
    tree
}

fn scrambled(count: u32) -> Vec<u16> {
    let mut state: u32 = 12345;
    (0..count)
        .map(|_| {
            state = state.wrapping_mul(1103515245).wrapping_add(12345);
            ((state >> 8) % 500) as u16
        })
        .collect()
}

fn check_counts(node: &Node, t: usize, root: bool) {
    assert!(node.n <= 2 * t - 1);
    if !root {
        assert!(node.n >= t - 1);
    }
    assert_eq!(node.keys.len(), 2 * t - 1);
    if node.leaf {
        assert!(node.children.is_empty());
    } else {
        assert_eq!(node.children.len(), node.n + 1);
    }
    for child in &node.children {
        check_counts(child, t, false);
    }
}

#[test]
fn golden_split_shape() {
    let tree = tree_of(2, &[10, 20, 5, 6, 12, 30, 7, 17]);
    assert_eq!(tree.traverse(), vec![5, 6, 7, 10, 12, 17, 20, 30]);
    let root = tree.root.as_ref().unwrap();
    assert!(!root.leaf);
    assert_eq!(root.n, 2);
    assert_eq!(&root.keys[..root.n], &[10, 20]);
    assert_eq!(root.children.len(), 3);
    let kids: Vec<Vec<u16>> = root.children.iter().map(|c| c.keys[..c.n].to_vec()).collect();
    assert_eq!(kids, vec![vec![5, 6, 7], vec![12, 17], vec![30]]);
    assert!(root.children.iter().all(|c| c.leaf));
    assert!(tree.is_wf());
}

#[test]
fn first_split_promotes_the_median() {
    let tree = tree_of(2, &[10, 20, 5, 6]);
    let root = tree.root.as_ref().unwrap();
    assert_eq!(&root.keys[..root.n], &[10]);
    assert_eq!(root.keys, vec![10, 0, 0]);
    assert_eq!(root.children[0].keys, vec![5, 6, 0]);
    assert_eq!(root.children[1].keys, vec![20, 0, 0]);
}

#[test]
fn split_child_halves_a_full_child() {
    let mut parent = Node::new(3, false);
    let mut child = Node::new(3, true);
    for (i, k) in [1u16, 2, 3, 4, 5].iter().enumerate() {
        child.keys[i] = *k;
    }
    child.n = 5;
    parent.children.push(Box::new(child));
    parent.split_child(0);
    assert_eq!(parent.n, 1);
    assert_eq!(parent.keys, vec![3, 0, 0, 0, 0]);
    assert_eq!(parent.children.len(), 2);
    assert_eq!(parent.children[0].n, 2);
    assert_eq!(parent.children[0].keys, vec![1, 2, 0, 0, 0]);
    assert_eq!(parent.children[1].n, 2);
    assert_eq!(parent.children[1].keys, vec![4, 5, 0, 0, 0]);
    assert_eq!(parent.traverse(), vec![1, 2, 3, 4, 5]);
}

#[test]
fn insert_non_full_keeps_a_leaf_sorted() {
    let mut leaf = Node::new(3, true);
    for k in [9u16, 1, 5, 5, 0] {
        leaf.insert_non_full(k);
    }
    assert_eq!(leaf.n, 5);
    assert_eq!(leaf.keys, vec![0, 1, 5, 5, 9]);
}

#[test]
fn empty_tree_has_nothing() {
    let tree = BTree::new(3);
    assert!(tree.root.is_none());
    assert_eq!(tree.t, 3);
    assert_eq!(tree.traverse(), Vec::<u16>::new());
    assert!(!tree.search(0));
    assert!(tree.is_wf());
}

#[test]
fn node_new_is_zeroed() {
    let node = Node::new(3, true);
    assert_eq!(node.keys, vec![0u16; 5]);
    assert_eq!(node.n, 0);
    assert_eq!(node.t, 3);
    assert!(node.leaf);
    assert!(node.children.is_empty());
    assert!(!Node::new(1, false).leaf);
}

#[test]
fn search_finds_what_was_inserted() {
    for t in [2usize, 3, 5, 8] {
        let keys = scrambled(700);
        let tree = tree_of(t, &keys);
        for k in 0..520u16 {
            assert_eq!(tree.search(k), keys.contains(&k), "t = {}, key = {}", t, k);
        }
    }
}

#[test]
fn search_returns_the_node_that_holds_the_key() {
    let tree = tree_of(2, &[10, 20, 5, 6, 12, 30, 7, 17]);
    let root = tree.root.as_ref().unwrap();
    let at = root.search(17).unwrap();
    assert_eq!(&at.keys[..at.n], &[12, 17]);
    let top = root.search(20).unwrap();
    assert_eq!(&top.keys[..top.n], &[10, 20]);
    assert!(root.search(11).is_none());
}

#[test]
fn traversal_is_sorted_and_keeps_duplicates() {
    for t in [2usize, 3, 5] {
        let keys = scrambled(1000);
        let tree = tree_of(t, &keys);
        let mut expected = keys.clone();
        expected.sort();
        assert_eq!(tree.traverse(), expected);
        assert_eq!(tree.traverse(), tree.traverse());
    }
    let same = tree_of(2, &[7; 40]);
    assert_eq!(same.traverse(), vec![7; 40]);
    assert!(same.is_wf());
}

#[test]
fn every_insert_keeps_the_node_invariant() {
    for t in [2usize, 3, 5] {
        let mut tree = BTree::new(t);
        for k in scrambled(600) {
            tree.insert(k);
            check_counts(tree.root.as_ref().unwrap(), t, true);
            assert!(tree.is_wf());
        }
    }
}

#[test]
fn extreme_keys_are_held() {
    let tree = tree_of(2, &[65535, 0, 65535, 0, 1, 65534]);
    assert_eq!(tree.traverse(), vec![0, 0, 1, 65534, 65535, 65535]);
    assert!(tree.search(0) && tree.search(65535) && !tree.search(2));
}

#[test]
fn broken_trees_are_not_well_formed() {
    let good = tree_of(2, &[10, 20, 5, 6, 12, 30, 7, 17]);
    assert!(good.is_wf());

    let mut unsorted = tree_of(2, &[10, 20, 5, 6, 12, 30, 7, 17]);
    unsorted.root.as_mut().unwrap().children[0].keys[0] = 9;
    assert!(!unsorted.is_wf());

    let mut out_of_range = tree_of(2, &[10, 20, 5, 6, 12, 30, 7, 17]);
    out_of_range.root.as_mut().unwrap().children[1].keys[1] = 25;
    assert!(!out_of_range.is_wf());

    let mut junk = tree_of(2, &[10, 20, 5, 6, 12, 30, 7, 17]);
    junk.root.as_mut().unwrap().children[2].keys[2] = 1;
    assert!(!junk.is_wf());

    let mut underfull = tree_of(2, &[10, 20, 5, 6, 12, 30, 7, 17]);
    underfull.root.as_mut().unwrap().children[2].n = 0;
    underfull.root.as_mut().unwrap().children[2].keys[0] = 0;
    assert!(!underfull.is_wf());

    let mut uneven = tree_of(2, &[10, 20, 5, 6, 12, 30, 7, 17]);
    let extra = tree_of(2, &[40, 50, 60, 70]).root.unwrap();
    uneven.root.as_mut().unwrap().children[2] = extra;
    assert!(!uneven.is_wf());

    let mut degree = tree_of(2, &[1, 2]);
    degree.t = 3;
    assert!(!degree.is_wf());
    assert!(!BTree::new(1).is_wf());
    assert!(!BTree::new(0).is_wf());
}

#[test]
fn first_and_last_key_bound_the_traversal() {
    let tree = tree_of(2, &[10, 20, 5, 6, 12, 30, 7, 17]);
    let root = tree.root.as_ref().unwrap();
    assert_eq!(root.first_key(), 5);
    assert_eq!(root.last_key(), 30);
    assert!(root.children[0].same_height(&root.children[2]));
    assert!(!root.same_height(&root.children[0]));
}

#[test]
fn slots_past_the_count_are_not_read() {
    let leaf = Node { keys: vec![5, 10, 20], children: Vec::new(), n: 1, leaf: true, t: 2 };
    assert_eq!(leaf.traverse(), vec![5]);
    assert!(leaf.search(5).is_some());
    assert!(leaf.search(10).is_none());
    assert!(leaf.search(20).is_none());
    assert!(leaf.search(0).is_none());
    assert!(!leaf.is_wf(2, 0));

    let mut top = Node::new(2, false);
    top.keys = vec![10, 99, 98];
    top.n = 1;
    top.children.push(Box::new(Node {
        keys: vec![5, 6, 77],
        children: Vec::new(),
        n: 2,
        leaf: true,
        t: 2,
    }));
    top.children.push(Box::new(Node {
        keys: vec![20, 3, 4],
        children: Vec::new(),
        n: 1,
        leaf: true,
        t: 2,
    }));
    assert_eq!(top.traverse(), vec![5, 6, 10, 20]);
    let tree = BTree { root: Some(Box::new(top)), t: 2 };
    assert_eq!(tree.traverse(), vec![5, 6, 10, 20]);
    assert!(tree.search(20) && !tree.search(77) && !tree.search(99) && !tree.search(3));
    assert!(!tree.is_wf());
}
