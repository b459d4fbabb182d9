use btree_store::node::{KeyValuePair, Node, NodeType, MAX_CELLS, MAX_PAGE_SENTINEL};
use btree_store::row::Row;

fn pair(key: usize) -> KeyValuePair {
    KeyValuePair { key, value: Row::new(key, (key * 10) as u64) }
}

fn leaf_with_keys(keys: &[usize]) -> Node {
    let mut node = Node::leaf();
    for (i, &k) in keys.iter().enumerate() {
        assert!(node.insert(i, k, Row::new(k, (k * 10) as u64)));
    }
    node
}

fn leaf_keys(node: &Node) -> Vec<usize> {
    match &node.node_type {
        NodeType::Leaf(cells) => cells.iter().map(|c| c.key).collect(),
        NodeType::Internal { .. } => panic!("expected a leaf"),
    }
}

#[test]
fn empty_leaf_constructor() {
    let node = Node::leaf();
    assert!(!node.is_root);
    assert!(node.parent_offset.is_none());
    assert_eq!(node.num_cells, 0);
    assert_eq!(node.page_num, 0);
    assert!(node.is_leaf());
}

#[test]
fn leaf_with_children_sets_count() {
    let cells = vec![pair(1), pair(3), pair(5)];
    let node = Node::leaf_with_children(cells);
    assert_eq!(node.num_cells, 3);
    assert_eq!(leaf_keys(&node), vec![1, 3, 5]);
    assert!(!node.is_root);
}

#[test]
fn internal_constructor_is_empty() {
    let node = Node::internal();
    assert!(!node.is_leaf());
    assert_eq!(node.num_cells, 0);
    assert!(node.parent_offset.is_none());
}

#[test]
fn get_returns_cell_or_nothing() {
    let node = leaf_with_keys(&[2, 4, 6]);
    assert_eq!(node.get(1).unwrap().key, 4);
    assert_eq!(node.get(1).unwrap().value, Row::new(4, 40));
    assert!(node.get(3).is_none());
    assert!(Node::internal().get(0).is_none());
}

#[test]
fn insert_keeps_cells_ordered() {
    let mut node = Node::leaf();
    assert!(node.insert(0, 5, Row::new(5, 50)));
    assert!(node.insert(0, 2, Row::new(2, 20)));
    assert!(node.insert(2, 9, Row::new(9, 90)));
    assert_eq!(leaf_keys(&node), vec![2, 5, 9]);
    assert_eq!(node.num_cells, 3);
}

#[test]
fn insert_rejects_full_leaf() {
    let keys: Vec<usize> = (1..=MAX_CELLS).collect();
    let mut node = leaf_with_keys(&keys);
    assert_eq!(node.num_cells, MAX_CELLS);
    assert!(!node.insert(MAX_CELLS, 99, Row::new(99, 0)));
    assert_eq!(node.num_cells, MAX_CELLS);
}

#[test]
fn insert_rejects_misplaced_position() {
    let mut node = leaf_with_keys(&[2, 5]);
    // too far right for its key
    assert!(!node.insert(2, 1, Row::new(1, 0)));
    // too far left for its key
    assert!(!node.insert(0, 9, Row::new(9, 0)));
    // duplicate of an existing key
    assert!(!node.insert(1, 2, Row::new(2, 0)));
    assert!(!node.insert(0, 2, Row::new(2, 0)));
    // out of range
    assert!(!node.insert(3, 9, Row::new(9, 0)));
    assert_eq!(leaf_keys(&node), vec![2, 5]);
}

#[test]
fn find_hit_returns_cell_index() {
    let node = leaf_with_keys(&[2, 4, 6]);
    assert_eq!(node.find(4), Ok((0, 1)));
    assert_eq!(node.find(2), Ok((0, 0)));
    assert_eq!(node.find(6), Ok((0, 2)));
}

#[test]
fn find_miss_returns_insertion_index() {
    let node = leaf_with_keys(&[2, 4, 6]);
    assert_eq!(node.find(999), Err((0, 3)));
    assert_eq!(node.find(1), Err((0, 0)));
    assert_eq!(node.find(5), Err((0, 2)));
}

#[test]
fn find_miss_on_full_leaf_returns_sentinel() {
    let keys: Vec<usize> = (1..=MAX_CELLS).collect();
    let node = leaf_with_keys(&keys);
    assert_eq!(node.find(99), Err((MAX_PAGE_SENTINEL, 0)));
    // a hit is still reported even at capacity
    assert_eq!(node.find(3), Ok((0, 2)));
}

#[test]
fn split_even_count_gives_equal_halves() {
    let keys: Vec<usize> = (1..=MAX_CELLS).collect();
    let mut node = leaf_with_keys(&keys);
    let upper = node.split(7);
    assert_eq!(leaf_keys(&node), (1..=6).collect::<Vec<usize>>());
    assert_eq!(leaf_keys(&upper), (7..=12).collect::<Vec<usize>>());
    assert_eq!(node.num_cells, 6);
    assert_eq!(upper.num_cells, 6);
    assert_eq!(upper.page_num, 7);
    assert!(!upper.is_root);
    assert!(upper.parent_offset.is_none());
}

#[test]
fn split_odd_count_gives_lower_the_extra_cell() {
    let keys: Vec<usize> = (1..=11).collect();
    let mut node = leaf_with_keys(&keys);
    let upper = node.split(3);
    assert_eq!(leaf_keys(&node), (1..=6).collect::<Vec<usize>>());
    assert_eq!(leaf_keys(&upper), (7..=11).collect::<Vec<usize>>());
    assert_eq!(node.num_cells, 6);
    assert_eq!(upper.num_cells, 5);
}

#[test]
fn insert_sorted_places_by_key_and_rejects_duplicates() {
    let mut node = Node::leaf();
    assert!(node.insert_sorted(5, Row::new(5, 50)));
    assert!(node.insert_sorted(1, Row::new(1, 10)));
    assert!(node.insert_sorted(9, Row::new(9, 90)));
    assert_eq!(leaf_keys(&node), vec![1, 5, 9]);
    assert!(!node.insert_sorted(5, Row::new(5, 0)));
    assert_eq!(leaf_keys(&node), vec![1, 5, 9]);
}

#[test]
fn contains_key_reports_membership() {
    let node = leaf_with_keys(&[2, 4, 6]);
    assert!(node.contains_key(4));
    assert!(!node.contains_key(5));
}

#[test]
fn max_key_is_last_cell_key() {
    let node = leaf_with_keys(&[2, 4, 6]);
    assert_eq!(node.max_key(), 6);
}

fn internal_with(keys: Vec<usize>, children: Vec<usize>) -> Node {
    let num_cells = keys.len();
    Node {
        is_root: false,
        node_type: NodeType::Internal { keys, children },
        parent_offset: None,
        num_cells,
        page_num: 0,
    }
}

#[test]
fn child_for_routes_by_separator() {
    let node = internal_with(vec![10, 20], vec![1, 2, 3]);
    assert_eq!(node.child_for(5), 1);
    // a key equal to a separator belongs to the child on its left
    assert_eq!(node.child_for(10), 1);
    assert_eq!(node.child_for(15), 2);
    assert_eq!(node.child_for(20), 2);
    assert_eq!(node.child_for(21), 3);
}

#[test]
fn insert_separator_places_key_and_child() {
    let mut node = internal_with(vec![10], vec![1, 2]);
    assert!(node.insert_separator(20, 3));
    assert!(node.insert_separator(5, 4));
    match &node.node_type {
        NodeType::Internal { keys, children } => {
            assert_eq!(keys, &vec![5, 10, 20]);
            assert_eq!(children, &vec![1, 4, 2, 3]);
        },
        NodeType::Leaf(_) => panic!("expected an internal node"),
    }
    assert_eq!(node.num_cells, 3);
    // a duplicate separator is refused
    assert!(!node.insert_separator(10, 9));
    assert_eq!(node.num_cells, 3);
}

#[test]
fn split_internal_promotes_median() {
    let keys: Vec<usize> = (1..=12).map(|k| k * 10).collect();
    let children: Vec<usize> = (1..=13).collect();
    let mut node = internal_with(keys, children);
    let (median, right) = node.split_internal(40);
    assert_eq!(median, 70);
    match &node.node_type {
        NodeType::Internal { keys, children } => {
            assert_eq!(keys, &vec![10, 20, 30, 40, 50, 60]);
            assert_eq!(children, &(1..=7).collect::<Vec<usize>>());
        },
        NodeType::Leaf(_) => panic!("expected an internal node"),
    }
    match &right.node_type {
        NodeType::Internal { keys, children } => {
            assert_eq!(keys, &vec![80, 90, 100, 110, 120]);
            assert_eq!(children, &(8..=13).collect::<Vec<usize>>());
        },
        NodeType::Leaf(_) => panic!("expected an internal node"),
    }
    assert_eq!(right.page_num, 40);
    assert_eq!(node.num_cells, 6);
    assert_eq!(right.num_cells, 5);
}

#[test]
fn clone_copies_every_field() {
    let mut node = leaf_with_keys(&[3, 7]);
    node.is_root = true;
    node.page_num = 5;
    let copy = node.clone();
    assert!(copy.is_root);
    assert_eq!(copy.page_num, 5);
    assert_eq!(copy.num_cells, 2);
    assert_eq!(leaf_keys(&copy), vec![3, 7]);
}
