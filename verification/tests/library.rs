use btree::cursor::Bound;
use btree::error::BTreeError;
use btree::key::{BTreeKey, KeyOrdering};
use btree::node::{BTreeNode, InternalNode, LeafNode, NO_LEAF, NO_PAGE};
use btree::pager::{
    decode_header, encode_header, frame_page, page_offset, page_payloads, unframe_page, Pager, PAGE_SIZE,
};
use btree::tree::BTree;
use std::collections::BTreeMap;

fn keyed(i: u64) -> String {
    format!("{:04}", i)
}

fn filled(n: u64, t: usize) -> BTree<String, u64> {
    let mut tree = BTree::open(Pager::new(), t).unwrap();
    for i in 0..n {
        tree.insert(keyed(i), i).unwrap();
    }
    tree
}

#[test]
fn get_after_insert_gives_the_value() {
    let mut tree = filled(40, 2);
    tree.insert("0007x".to_string(), 777).unwrap();
    assert_eq!(tree.get(&"0007x".to_string()).unwrap(), 777);
    for i in 0..40 {
        assert_eq!(tree.get(&keyed(i)).unwrap(), i);
    }
}

#[test]
fn delete_undoes_insert() {
    let mut tree = filled(60, 2);
    let before = tree.scan_all().unwrap();
    tree.insert("0030a".to_string(), 5).unwrap();
    assert_eq!(tree.scan_all().unwrap().len(), 61);
    tree.delete(&"0030a".to_string()).unwrap();
    assert_eq!(tree.scan_all().unwrap(), before);
}

#[test]
fn deletes_against_a_reference_map() {
    for t in 2..5usize {
        let mut tree: BTree<u64, u64> = BTree::open(Pager::new(), t).unwrap();
        let mut reference = BTreeMap::new();
        for i in 0..300u64 {
            let k = (i * 37) % 301;
            tree.insert(k, i).unwrap();
            reference.insert(k, i);
        }
        for i in 0..300u64 {
            let k = (i * 53) % 307;
            let expected = reference.remove(&k).is_some();
            let got = tree.delete(&k);
            assert_eq!(got.is_ok(), expected, "delete of {}", k);
            if !expected {
                assert!(matches!(got, Err(BTreeError::KeyNotFound)));
            }
            if i % 25 == 0 {
                let expected_all: Vec<(u64, u64)> = reference.iter().map(|(k, v)| (*k, *v)).collect();
                assert_eq!(tree.scan_all().unwrap(), expected_all);
            }
        }
        let expected_all: Vec<(u64, u64)> = reference.iter().map(|(k, v)| (*k, *v)).collect();
        assert_eq!(tree.scan_all().unwrap(), expected_all);
        for (k, v) in &reference {
            assert_eq!(tree.get(k).unwrap(), *v);
        }
    }
}

#[test]
fn delete_everything_then_reuse() {
    let mut tree = filled(120, 2);
    for i in 0..120 {
        tree.delete(&keyed(i)).unwrap();
    }
    assert!(tree.scan_all().unwrap().is_empty());
    assert!(matches!(tree.get(&keyed(3)), Err(BTreeError::KeyNotFound)));
    tree.insert(keyed(3), 33).unwrap();
    assert_eq!(tree.scan_all().unwrap(), vec![(keyed(3), 33)]);
}

#[test]
fn failed_delete_keeps_the_entries() {
    let mut tree = filled(90, 2);
    let before = tree.scan_all().unwrap();
    assert!(matches!(tree.delete(&"0045x".to_string()), Err(BTreeError::KeyNotFound)));
    assert_eq!(tree.scan_all().unwrap(), before);
}

#[test]
fn range_included_to_excluded() {
    let mut tree = filled(20, 3);
    let mut cursor = tree.range(Bound::Included(keyed(5)), Bound::Excluded(keyed(10))).unwrap();
    let got = cursor.collect_all(tree.pager()).unwrap();
    let expected: Vec<(String, u64)> = (5..10).map(|i| (keyed(i), i)).collect();
    assert_eq!(got, expected);
}

#[test]
fn range_excluded_to_included() {
    let mut tree = filled(30, 2);
    let mut cursor = tree.range(Bound::Excluded(keyed(5)), Bound::Included(keyed(17))).unwrap();
    let got = cursor.collect_all(tree.pager()).unwrap();
    let expected: Vec<(String, u64)> = (6..18).map(|i| (keyed(i), i)).collect();
    assert_eq!(got, expected);
}

#[test]
fn range_with_absent_bounds() {
    let mut tree: BTree<u32, u32> = BTree::open(Pager::new(), 2).unwrap();
    for i in 0..50u32 {
        tree.insert(i * 2, i).unwrap();
    }
    let mut cursor = tree.range(Bound::Included(7), Bound::Excluded(15)).unwrap();
    let got = cursor.collect_all(tree.pager()).unwrap();
    assert_eq!(got, vec![(8, 4), (10, 5), (12, 6), (14, 7)]);
    let mut cursor = tree.range(Bound::Excluded(95), Bound::Unbounded).unwrap();
    assert_eq!(cursor.collect_all(tree.pager()).unwrap(), vec![(96, 48), (98, 49)]);
    let mut cursor = tree.range(Bound::Included(200), Bound::Unbounded).unwrap();
    assert!(cursor.collect_all(tree.pager()).unwrap().is_empty());
}

#[test]
fn cursor_steps_then_stops() {
    let mut tree = filled(8, 2);
    let mut cursor = tree.range(Bound::Unbounded, Bound::Excluded(keyed(3))).unwrap();
    assert_eq!(cursor.next(tree.pager()).unwrap(), Some((keyed(0), 0)));
    assert_eq!(cursor.next(tree.pager()).unwrap(), Some((keyed(1), 1)));
    assert_eq!(cursor.next(tree.pager()).unwrap(), Some((keyed(2), 2)));
    assert_eq!(cursor.next(tree.pager()).unwrap(), None);
    assert_eq!(cursor.next(tree.pager()).unwrap(), None);
}

#[test]
fn reopen_keeps_the_entries() {
    let mut tree = filled(70, 2);
    tree.delete(&keyed(10)).unwrap();
    let before = tree.scan_all().unwrap();
    let pager = tree.into_pager();
    let reloaded = Pager::from_pages(pager.root_page_id, pager.pages).unwrap();
    let mut again: BTree<String, u64> = BTree::open(reloaded, 2).unwrap();
    assert_eq!(again.scan_all().unwrap(), before);
}

#[test]
fn open_refuses_broken_pages() {
    // A root page out of range.
    let pages: Vec<BTreeNode<u64, u64>> = vec![BTreeNode::new_leaf()];
    let pager = Pager::from_pages(5, pages).unwrap();
    assert!(matches!(BTree::open(pager, 2), Err(BTreeError::CorruptPage { page_id: 5 })));
    // A leaf with keys out of order.
    let leaf = LeafNode { keys: vec![2u64, 1], values: vec![0u64, 0], next_leaf: NO_LEAF };
    let pager = Pager::from_pages(0, vec![BTreeNode::Leaf(leaf)]).unwrap();
    assert!(matches!(BTree::open(pager, 2), Err(BTreeError::CorruptPage { page_id: 0 })));
    // An internal node whose child is itself.
    let node: BTreeNode<u64, u64> = BTreeNode::Internal(InternalNode { keys: vec![], children: vec![0] });
    let pager = Pager::from_pages(0, vec![node]).unwrap();
    assert!(matches!(BTree::open(pager, 2), Err(BTreeError::CorruptPage { page_id: 0 })));
    // A leaf chain that does not end.
    let a = LeafNode { keys: vec![1u64], values: vec![1u64], next_leaf: 2 };
    let b = LeafNode { keys: vec![5u64], values: vec![5u64], next_leaf: 1 };
    let root: BTreeNode<u64, u64> = BTreeNode::Internal(InternalNode { keys: vec![5], children: vec![1, 2] });
    let pager = Pager::from_pages(0, vec![root, BTreeNode::Leaf(a), BTreeNode::Leaf(b)]).unwrap();
    assert!(matches!(BTree::open(pager, 2), Err(BTreeError::CorruptPage { page_id: 0 })));
    // Page 0 in the tree but not as its first leaf: a link to 0 would end the
    // chain there.
    let a = LeafNode { keys: vec![1u64], values: vec![1u64], next_leaf: 2 };
    let b = LeafNode { keys: vec![5u64], values: vec![5u64], next_leaf: NO_LEAF };
    let root: BTreeNode<u64, u64> = BTreeNode::Internal(InternalNode { keys: vec![5], children: vec![1, 2] });
    let pager = Pager::from_pages(0, vec![root, BTreeNode::Leaf(a), BTreeNode::Leaf(b)]).unwrap();
    assert!(matches!(BTree::open(pager, 2), Err(BTreeError::CorruptPage { page_id: 0 })));
}

#[test]
fn open_accepts_hand_built_pages() {
    let a = LeafNode { keys: vec![1u64], values: vec![10u64], next_leaf: 1 };
    let b = LeafNode { keys: vec![5u64, 7], values: vec![50u64, 70], next_leaf: NO_LEAF };
    let root: BTreeNode<u64, u64> = BTreeNode::Internal(InternalNode { keys: vec![5], children: vec![0, 1] });
    let pager = Pager::from_pages(2, vec![BTreeNode::Leaf(a), BTreeNode::Leaf(b), root]).unwrap();
    let mut tree = BTree::open(pager, 2).unwrap();
    assert_eq!(tree.scan_all().unwrap(), vec![(1, 10), (5, 50), (7, 70)]);
    assert_eq!(tree.get(&7).unwrap(), 70);
}

#[test]
fn new_pager_gets_a_root_leaf() {
    let tree: BTree<u64, u64> = BTree::open(Pager::new(), 2).unwrap();
    let pager = tree.pager();
    assert_eq!(pager.root_page_id, 0);
    assert_eq!(pager.next_page_id, 1);
    assert!(pager.read_node(0).is_leaf());
}

#[test]
fn dirty_pages_are_listed_once() {
    let mut tree = filled(10, 2);
    let first = tree.take_dirty();
    assert!(!first.is_empty());
    assert!(first.windows(2).all(|w| w[0] < w[1]));
    assert!(tree.take_dirty().is_empty());
    tree.insert(keyed(3), 99).unwrap();
    assert!(!tree.take_dirty().is_empty());
}

#[test]
fn pager_allocates_reads_and_writes() {
    let mut pager: Pager<u64, u64> = Pager::new();
    assert_eq!(pager.alloc_page().unwrap(), 0);
    assert_eq!(pager.alloc_page().unwrap(), 1);
    assert!(pager.read_node(1).is_leaf());
    pager.write_node(1, BTreeNode::new_internal());
    assert!(!pager.read_node(1).is_leaf());
    // Both pages were allocated since the last flush: both are to be written.
    assert_eq!(pager.take_dirty(), vec![0, 1]);
    pager.write_node(0, BTreeNode::new_leaf());
    assert_eq!(pager.take_dirty(), vec![0]);
    assert!(pager.take_dirty().is_empty());
}

#[test]
fn node_helpers() {
    let leaf: BTreeNode<u64, u64> = BTreeNode::new_leaf();
    assert!(leaf.is_leaf());
    match &leaf {
        BTreeNode::Leaf(l) => assert_eq!(l.next_leaf, 0),
        BTreeNode::Internal(_) => panic!("expected a leaf"),
    }
    assert_eq!(leaf.num_keys(), 0);
    let node: BTreeNode<u64, u64> = BTreeNode::Internal(InternalNode { keys: vec![10, 20, 30], children: vec![0, 1, 2, 3] });
    assert!(!node.is_leaf());
    assert_eq!(node.num_keys(), 3);
    assert!(node.is_full(2));
    assert!(!node.is_full(3));
    assert_eq!(node.search_keys(&20), Ok(1));
    assert_eq!(node.search_keys(&25), Err(2));
    assert_eq!(node.search_keys(&5), Err(0));
    match BTreeNode::<u64, u64>::new_internal() {
        BTreeNode::Internal(n) => {
            assert!(n.keys.is_empty());
            assert_eq!(n.children, vec![NO_PAGE]);
        },
        BTreeNode::Leaf(_) => panic!("expected an internal node"),
    }
    assert!(!node.is_full(usize::MAX));
}

#[test]
fn string_keys_order_by_bytes() {
    assert!(matches!("apple".to_string().compare(&"banana".to_string()), KeyOrdering::Less));
    assert!(matches!("b".to_string().compare(&"abc".to_string()), KeyOrdering::Greater));
    assert!(matches!("ab".to_string().compare(&"abc".to_string()), KeyOrdering::Less));
    assert!(matches!("same".to_string().compare(&"same".to_string()), KeyOrdering::Equal));
    assert!(matches!(7u32.compare(&3u32), KeyOrdering::Greater));
}

#[test]
fn header_round_trip() {
    let h = encode_header(7, NO_PAGE);
    assert_eq!(h.len(), 16);
    assert_eq!(&h[0..8], &7u64.to_le_bytes());
    assert_eq!(decode_header(&h), (7, NO_PAGE));
}

#[test]
fn page_offsets_follow_the_header_slot() {
    assert_eq!(page_offset(0), 4096);
    assert_eq!(page_offset(3), 16384);
}

#[test]
fn frame_round_trip() {
    let payload = vec![1u8, 2, 3];
    let page = frame_page(4, &payload).unwrap();
    assert_eq!(page.len(), PAGE_SIZE);
    assert_eq!(&page[0..8], &3u64.to_le_bytes());
    assert_eq!(&page[8..11], &[1, 2, 3]);
    assert!(page[11..].iter().all(|b| *b == 0));
    assert_eq!(unframe_page(4, &page).unwrap(), payload);
    let too_big = vec![0u8; PAGE_SIZE - 7];
    assert!(matches!(frame_page(9, &too_big), Err(BTreeError::CorruptPage { page_id: 9 })));
    let mut bad = page.clone();
    bad[0] = 0xff;
    bad[7] = 0xff;
    assert!(matches!(unframe_page(4, &bad), Err(BTreeError::CorruptPage { page_id: 4 })));
    assert!(matches!(unframe_page(4, &page[0..100]), Err(BTreeError::CorruptPage { page_id: 4 })));
}

#[test]
fn page_payloads_of_a_file() {
    let mut file = encode_header(2, 0);
    file.resize(PAGE_SIZE, 0);
    file.extend(frame_page(0, &[9u8, 9]).unwrap());
    file.extend(frame_page(1, &[]).unwrap());
    let v = page_payloads(&file, 2).unwrap();
    assert_eq!(v, vec![vec![9u8, 9], vec![]]);
    assert!(matches!(page_payloads(&file, 3), Err(BTreeError::CorruptPage { page_id: 2 })));
    assert!(page_payloads(&file, 0).unwrap().is_empty());
}

#[test]
fn range_agrees_with_filtered_scan() {
    let mut tree: BTree<u64, u64> = BTree::open(Pager::new(), 2).unwrap();
    for i in 0..120u64 {
        tree.insert((i * 7919) % 1000, i).unwrap();
    }
    let all = tree.scan_all().unwrap();
    let mut cursor = tree.range(Bound::Excluded(250), Bound::Included(700)).unwrap();
    let got = cursor.collect_all(tree.pager()).unwrap();
    let expected: Vec<(u64, u64)> = all.into_iter().filter(|(k, _)| *k > 250 && *k <= 700).collect();
    assert_eq!(got, expected);
}

/// Walks the tree from its root and checks the key counts of every node and
/// the depth of every leaf; returns the depth of the leaves.
fn check_balance(pager: &Pager<u64, u64>, id: u64, t: usize, is_root: bool) -> usize {
    let node = pager.read_node(id);
    let n = node.num_keys();
    assert!(n <= 2 * t - 1, "page {} holds {} keys", id, n);
    if !is_root {
        assert!(n >= t - 1, "page {} holds only {} keys", id, n);
    }
    match node {
        BTreeNode::Leaf(_) => 0,
        BTreeNode::Internal(inner) => {
            assert_eq!(inner.children.len(), n + 1);
            let depths: Vec<usize> = inner.children.iter().map(|c| check_balance(pager, *c, t, false)).collect();
            assert!(depths.iter().all(|d| *d == depths[0]), "leaves at different depths below page {}", id);
            depths[0] + 1
        },
    }
}

#[test]
fn inserts_and_deletes_keep_the_tree_balanced() {
    for t in 2..5usize {
        let mut tree: BTree<u64, u64> = BTree::open(Pager::new(), t).unwrap();
        let mut reference = BTreeMap::new();
        let mut x: u64 = 7;
        for step in 0..600u64 {
            x = x.wrapping_mul(6364136223846793005).wrapping_add(1442695040888963407);
            let k = (x >> 33) % 200;
            if step % 3 == 2 {
                let r = tree.delete(&k);
                assert_eq!(r.is_ok(), reference.remove(&k).is_some());
            } else {
                tree.insert(k, step).unwrap();
                reference.insert(k, step);
            }
            let root = tree.pager().root_page_id;
            check_balance(tree.pager(), root, t, true);
        }
        let all: Vec<(u64, u64)> = reference.into_iter().collect();
        assert_eq!(tree.scan_all().unwrap(), all);
    }
}

#[test]
fn first_split_of_a_full_root_leaf() {
    let mut tree: BTree<u64, u64> = BTree::open(Pager::new(), 2).unwrap();
    for k in 1..4u64 {
        tree.insert(k, k * 10).unwrap();
    }
    assert_eq!(tree.pager().root_page_id, 0);
    tree.insert(4, 40).unwrap();
    let pager = tree.pager();
    assert_eq!(pager.root_page_id, 1);
    match pager.read_node(1) {
        BTreeNode::Internal(n) => {
            assert_eq!(n.keys, vec![2]);
            assert_eq!(n.children, vec![0, 2]);
        },
        BTreeNode::Leaf(_) => panic!("the root should be internal"),
    }
    match pager.read_node(0) {
        BTreeNode::Leaf(l) => {
            assert_eq!(l.keys, vec![1]);
            assert_eq!(l.values, vec![10]);
            assert_eq!(l.next_leaf, 2);
        },
        BTreeNode::Internal(_) => panic!("page 0 should be a leaf"),
    }
    match pager.read_node(2) {
        BTreeNode::Leaf(l) => {
            assert_eq!(l.keys, vec![2, 3, 4]);
            assert_eq!(l.values, vec![20, 30, 40]);
            assert_eq!(l.next_leaf, NO_LEAF);
        },
        BTreeNode::Internal(_) => panic!("page 2 should be a leaf"),
    }
}

#[test]
fn delete_borrows_from_the_left_sibling() {
    let mut tree: BTree<u64, u64> = BTree::open(Pager::new(), 2).unwrap();
    for k in [10u64, 20, 30, 40, 5, 6] {
        tree.insert(k, k).unwrap();
    }
    // Leaves: [5, 6, 10] and [20, 30, 40] under the separator 20.
    tree.delete(&30).unwrap();
    tree.delete(&40).unwrap();
    // The right leaf fell to one key; deleting from it again borrows 10.
    tree.delete(&20).unwrap();
    let pager = tree.pager();
    let root = pager.root_page_id;
    check_balance(pager, root, 2, true);
    assert_eq!(tree.scan_all().unwrap(), vec![(5, 5), (6, 6), (10, 10)]);
}

#[test]
fn collect_all_leaves_the_cursor_at_the_end() {
    let mut tree: BTree<u64, u64> = BTree::open(Pager::new(), 2).unwrap();
    for k in 0..20u64 {
        tree.insert(k, k).unwrap();
    }
    let mut cursor = tree.range(Bound::Included(3), Bound::Excluded(9)).unwrap();
    let got = cursor.collect_all(tree.pager()).unwrap();
    assert_eq!(got, (3..9u64).map(|k| (k, k)).collect::<Vec<_>>());
    assert_eq!(cursor.next(tree.pager()).unwrap(), None);
}

/// A copy of a node, field by field.
fn copy_node(n: &BTreeNode<u64, u64>) -> BTreeNode<u64, u64> {
    match n {
        BTreeNode::Leaf(l) => BTreeNode::Leaf(LeafNode { keys: l.keys.clone(), values: l.values.clone(), next_leaf: l.next_leaf }),
        BTreeNode::Internal(i) => BTreeNode::Internal(InternalNode { keys: i.keys.clone(), children: i.children.clone() }),
    }
}

/// Storage that receives only the pages listed as dirty, as a flush does.
fn flush_into(tree: &mut BTree<u64, u64>, disk: &mut Vec<BTreeNode<u64, u64>>) -> u64 {
    for id in tree.take_dirty() {
        let node = copy_node(tree.pager().read_node(id));
        let i = id as usize;
        while disk.len() <= i {
            disk.push(BTreeNode::new_leaf());
        }
        disk[i] = node;
    }
    tree.pager().root_page_id
}

#[test]
fn only_dirty_pages_reach_storage() {
    let mut disk: Vec<BTreeNode<u64, u64>> = Vec::new();
    let mut tree: BTree<u64, u64> = BTree::open(Pager::new(), 2).unwrap();
    let mut reference = BTreeMap::new();
    let mut x: u64 = 11;
    for step in 0..300u64 {
        x = x.wrapping_mul(6364136223846793005).wrapping_add(1442695040888963407);
        let k = (x >> 33) % 120;
        if step % 4 == 3 {
            let r = tree.delete(&k);
            assert_eq!(r.is_ok(), reference.remove(&k).is_some());
        } else {
            tree.insert(k, step).unwrap();
            reference.insert(k, step);
        }
        let root = flush_into(&mut tree, &mut disk);
        if step % 25 == 0 {
            let copy: Vec<BTreeNode<u64, u64>> = disk.iter().map(copy_node).collect();
            let mut reopened: BTree<u64, u64> = BTree::open(Pager::from_pages(root, copy).unwrap(), 2).unwrap();
            let all: Vec<(u64, u64)> = reference.iter().map(|(a, b)| (*a, *b)).collect();
            assert_eq!(reopened.scan_all().unwrap(), all);
        }
    }
    let root = flush_into(&mut tree, &mut disk);
    let mut reopened: BTree<u64, u64> = BTree::open(Pager::from_pages(root, disk).unwrap(), 2).unwrap();
    let all: Vec<(u64, u64)> = reference.into_iter().collect();
    assert_eq!(reopened.scan_all().unwrap(), all);
}
