use btree_store::btree::BTree;
use btree_store::node::{NodeType, MAX_CELLS};
use btree_store::pager::Pager;
use btree_store::row::Row;

fn fresh() -> BTree {
    BTree::new(Pager::new())
}

fn row(k: usize) -> Row {
    Row::new(k, (k * 100) as u64)
}

/// Insert through the public find/insert protocol, as a caller would.
fn ins(tree: &mut BTree, k: usize) -> bool {
    match tree.find(k) {
        Ok(_) => false,
        Err(c) => tree.insert(&c, row(k)),
    }
}

fn check_invariants(tree: BTree) -> Pager {
    let pager = tree.close();
    let mut roots = 0;
    for i in 0..pager.num_pages() {
        let node = pager.get_page(i);
        assert_eq!(node.page_num, i);
        // capacity: no committed node exceeds MAX_CELLS
        assert!(node.num_cells <= MAX_CELLS);
        if node.is_root {
            roots += 1;
            assert!(node.parent_offset.is_none());
            assert_eq!(i, 0);
        } else {
            assert!(node.parent_offset.is_some());
        }
        // ordering: every leaf strictly increasing by key
        if let NodeType::Leaf(cells) = &node.node_type {
            for w in cells.windows(2) {
                assert!(w[0].key < w[1].key);
            }
        }
        if let NodeType::Internal { keys, children } = &node.node_type {
            assert_eq!(children.len(), keys.len() + 1);
            for w in keys.windows(2) {
                assert!(w[0] < w[1]);
            }
        }
    }
    // exactly one node is marked as root
    assert_eq!(roots, 1);
    pager
}

#[test]
fn fresh_tree_has_single_empty_root_leaf() {
    let tree = fresh();
    let root = tree.root();
    assert!(root.is_root);
    assert!(root.parent_offset.is_none());
    assert_eq!(root.num_cells, 0);
    assert!(root.is_leaf());
    check_invariants(tree);
}

#[test]
fn fill_one_leaf_and_find_every_key() {
    let mut tree = fresh();
    for k in 1..=MAX_CELLS {
        assert!(ins(&mut tree, k));
    }
    assert_eq!(tree.root().num_cells, MAX_CELLS);
    for k in 1..=MAX_CELLS {
        let c = tree.find(k).expect("key should be present");
        assert_eq!(c.page_num(), 0);
        assert_eq!(c.cell_num(), k - 1);
        assert_eq!(tree.get(c.page_num(), c.cell_num()), row(k));
    }
    // a miss on the full last page reports capacity and end of table
    let c = tree.find(13).expect_err("key 13 was never inserted");
    assert_eq!(c.page_num(), 0);
    assert_eq!(c.cell_num(), MAX_CELLS);
    assert!(c.end_of_table());
    check_invariants(tree);
}

#[test]
fn thirteenth_insert_splits_the_root_leaf() {
    let mut tree = fresh();
    for k in 1..=MAX_CELLS + 1 {
        assert!(ins(&mut tree, k));
    }
    // the root became internal with exactly two children
    let root = tree.root();
    assert!(root.is_root);
    match &root.node_type {
        NodeType::Internal { keys, children } => {
            assert_eq!(keys, &vec![6]);
            assert_eq!(children, &vec![2, 1]);
        },
        NodeType::Leaf(_) => panic!("the root should be internal after a split"),
    }
    // every key is still found, with the row that was stored
    for k in 1..=MAX_CELLS + 1 {
        let c = tree.find(k).expect("key should be present");
        assert_eq!(tree.get(c.page_num(), c.cell_num()), row(k));
    }
    let pager = check_invariants(tree);
    assert_eq!(pager.num_pages(), 3);
    // lower half at the fresh page 2, upper half (with key 13) at page 1
    let lower = pager.get_page(2);
    let upper = pager.get_page(1);
    assert_eq!(lower.num_cells, 6);
    assert_eq!(upper.num_cells, 7);
    match &lower.node_type {
        NodeType::Leaf(cells) => {
            assert_eq!(cells.iter().map(|c| c.key).collect::<Vec<usize>>(), vec![
                1, 2, 3, 4, 5, 6,
            ]);
        },
        NodeType::Internal { .. } => panic!("expected a leaf"),
    }
    match &upper.node_type {
        NodeType::Leaf(cells) => {
            assert_eq!(cells.iter().map(|c| c.key).collect::<Vec<usize>>(), vec![
                7, 8, 9, 10, 11, 12, 13,
            ]);
        },
        NodeType::Internal { .. } => panic!("expected a leaf"),
    }
    assert_eq!(lower.parent_offset, Some(0));
    assert_eq!(upper.parent_offset, Some(0));
}

#[test]
fn second_leaf_split_grows_the_existing_root() {
    let mut tree = fresh();
    for k in 1..=19 {
        assert!(ins(&mut tree, k));
    }
    let root = tree.root();
    match &root.node_type {
        NodeType::Internal { keys, children } => {
            assert_eq!(keys, &vec![6, 12]);
            assert_eq!(children, &vec![2, 1, 3]);
        },
        NodeType::Leaf(_) => panic!("the root should be internal"),
    }
    for k in 1..=19 {
        let c = tree.find(k).expect("key should be present");
        assert_eq!(tree.get(c.page_num(), c.cell_num()), row(k));
    }
    let pager = check_invariants(tree);
    assert_eq!(pager.num_pages(), 4);
    let newest = pager.get_page(3);
    assert_eq!(newest.parent_offset, Some(0));
    match &newest.node_type {
        NodeType::Leaf(cells) => {
            assert_eq!(cells.iter().map(|c| c.key).collect::<Vec<usize>>(), vec![
                13, 14, 15, 16, 17, 18, 19,
            ]);
        },
        NodeType::Internal { .. } => panic!("expected a leaf"),
    }
}

#[test]
fn lookup_of_a_key_never_inserted() {
    let mut tree = fresh();
    for k in [2, 4, 6] {
        assert!(ins(&mut tree, k));
    }
    let c = tree.find(999).expect_err("key 999 was never inserted");
    assert_eq!(c.page_num(), 0);
    assert_eq!(c.cell_num(), 3);
    assert!(!c.end_of_table());
    let c = tree.find(3).expect_err("key 3 was never inserted");
    assert_eq!(c.cell_num(), 1);
}

#[test]
fn insert_rejects_duplicate_keys() {
    let mut tree = fresh();
    assert!(ins(&mut tree, 5));
    // the protocol reports the duplicate as a find hit
    assert!(!ins(&mut tree, 5));
    // forcing an insert at a hit cursor is refused too
    let c = tree.find(5).expect("key 5 is present");
    assert!(!tree.insert(&c, row(5)));
    // a duplicate into a full leaf is refused without splitting
    let mut tree = fresh();
    for k in 1..=MAX_CELLS {
        assert!(ins(&mut tree, k));
    }
    let c = tree.find(13).expect_err("miss expected");
    assert!(!tree.insert(&c, row(7)));
    let pager = check_invariants(tree);
    assert_eq!(pager.num_pages(), 1);
}

#[test]
fn reopen_preserves_every_find_result() {
    let mut tree = fresh();
    for k in 1..=MAX_CELLS + 1 {
        assert!(ins(&mut tree, k));
    }
    let before: Vec<_> = (0..20).map(|k| tree.find(k)).collect();
    let rows: Vec<_> = (1..=MAX_CELLS + 1)
        .map(|k| {
            let c = tree.find(k).unwrap();
            tree.get(c.page_num(), c.cell_num())
        })
        .collect();
    let pager = tree.close();
    let tree = BTree::new(pager);
    let after: Vec<_> = (0..20).map(|k| tree.find(k)).collect();
    assert_eq!(before, after);
    for (i, k) in (1..=MAX_CELLS + 1).enumerate() {
        let c = tree.find(k).unwrap();
        assert_eq!(tree.get(c.page_num(), c.cell_num()), rows[i]);
        assert_eq!(rows[i], row(k));
    }
}

#[test]
fn ascending_inserts_grow_the_tree_through_internal_splits() {
    let mut tree = fresh();
    for k in 1..=200 {
        assert!(ins(&mut tree, k), "insert of key {} failed", k);
    }
    for k in 1..=200 {
        let c = tree.find(k).expect("key should be present");
        assert_eq!(tree.get(c.page_num(), c.cell_num()), row(k));
    }
    assert!(tree.find(0).is_err());
    assert!(tree.find(201).is_err());
    let pager = check_invariants(tree);
    // enough inserts to split internal nodes: more than one internal page
    let mut internals = 0;
    let mut leaf_cells = 0;
    for i in 0..pager.num_pages() {
        match pager.get_page(i).node_type {
            NodeType::Internal { .. } => internals += 1,
            NodeType::Leaf(cells) => leaf_cells += cells.len(),
        }
    }
    assert!(internals > 1, "expected the root split to have propagated");
    assert_eq!(leaf_cells, 200);
}

#[test]
fn unordered_inserts_keep_leaves_ordered() {
    let keys = [
        47, 3, 91, 15, 62, 8, 77, 29, 54, 1, 88, 36, 70, 22, 99, 11, 65, 42, 83, 5, 58, 19, 95,
        33, 74, 26, 50, 13, 86, 39,
    ];
    let mut tree = fresh();
    for &k in &keys {
        assert!(ins(&mut tree, k));
    }
    for &k in &keys {
        let c = tree.find(k).expect("key should be present");
        assert_eq!(tree.get(c.page_num(), c.cell_num()), row(k));
    }
    check_invariants(tree);
}

#[test]
fn cursor_carries_its_three_fields() {
    let c = btree_store::cursor::Cursor::new(4, 2, true);
    assert_eq!(c.page_num(), 4);
    assert_eq!(c.cell_num(), 2);
    assert!(c.end_of_table());
    assert_eq!(c, btree_store::cursor::Cursor::new(4, 2, true));
    assert_ne!(c, btree_store::cursor::Cursor::new(4, 3, true));
}

#[test]
fn pager_round_trips_committed_pages() {
    let mut pager = Pager::new();
    assert_eq!(pager.num_pages(), 0);
    let mut node = pager.get_page(0);
    assert!(node.is_leaf());
    assert!(node.insert(0, 42, Row::new(42, 420)));
    pager.commit_page(&node);
    assert_eq!(pager.num_pages(), 1);
    let back = pager.get_page(0);
    assert_eq!(back.get(0).unwrap().value, Row::new(42, 420));
    assert_eq!(back.num_cells, 1);
}
