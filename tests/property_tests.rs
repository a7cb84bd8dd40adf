use indexium::{
    decode_page, encode_page, Btree, BtreeError, BtreeMetadata, Item, Node, Page, MAX_ITEMS,
    MIN_ITEMS,
};

fn item(key: i32, val: &str) -> Item {
    Item {
        key,
        val: val.to_string(),
    }
}

fn collect_keys(node: &Node, out: &mut Vec<i32>) {
    if node.children.is_empty() {
        for it in &node.items {
            out.push(it.key);
        }
        return;
    }
    for (i, child) in node.children.iter().enumerate() {
        collect_keys(child, out);
        if i < node.items.len() {
            out.push(node.items[i].key);
        }
    }
}

fn leaf_depths(node: &Node, depth: usize, out: &mut Vec<usize>) {
    if node.children.is_empty() {
        out.push(depth);
    }
    for child in &node.children {
        leaf_depths(child, depth + 1, out);
    }
}

fn check_occupancy(node: &Node, is_root: bool) {
    assert!(node.items.len() <= MAX_ITEMS as usize);
    assert_eq!(node.num_items as usize, node.items.len());
    if !is_root {
        assert!(node.items.len() >= MIN_ITEMS as usize);
    }
    if !node.children.is_empty() {
        assert_eq!(node.children.len(), node.items.len() + 1);
    }
    for child in &node.children {
        check_occupancy(child, false);
    }
}

fn scrambled(n: i32) -> Vec<i32> {
    (0..n).map(|i| (i * 37) % n).collect()
}

#[test]
fn sorted_insert_gives_ascending_inorder() {
    let mut btree = Btree::new(4096);
    for k in scrambled(101) {
        btree.insert(item(k - 50, "v"));
    }
    let mut keys = Vec::new();
    collect_keys(btree.root.as_ref().unwrap(), &mut keys);
    let expected: Vec<i32> = (-50..51).collect();
    assert_eq!(keys, expected);
}

#[test]
fn search_after_insert_finds_every_value() {
    let mut btree = Btree::new(4096);
    for k in scrambled(200) {
        btree.insert(item(k, &format!("v{k}")));
    }
    for k in 0..200 {
        assert_eq!(btree.search(k).unwrap(), format!("v{k}"));
    }
    assert_eq!(btree.search(200), Err(BtreeError::NotFound));
    assert_eq!(btree.search(-1), Err(BtreeError::NotFound));
}

#[test]
fn duplicate_keeps_first_value_in_deep_tree() {
    let mut btree = Btree::new(4096);
    for k in 0..60 {
        btree.insert(item(k, &format!("first-{k}")));
    }
    for k in 0..60 {
        btree.insert(item(k, &format!("second-{k}")));
    }
    for k in 0..60 {
        assert_eq!(btree.search(k).unwrap(), format!("first-{k}"));
    }
}

#[test]
fn leaves_level_and_occupancy_after_mixed_operations() {
    let mut btree = Btree::new(4096);
    for k in scrambled(300) {
        btree.insert(item(k, "x"));
    }
    for k in scrambled(300) {
        if k % 3 != 0 {
            assert!(btree.delete(k).is_ok());
        }
        let root = btree.root.as_ref().unwrap();
        let mut depths = Vec::new();
        leaf_depths(root, 0, &mut depths);
        assert!(depths.iter().all(|d| *d == depths[0]));
        check_occupancy(root, true);
    }
    for k in 0..300 {
        assert_eq!(btree.search(k).is_ok(), k % 3 == 0);
    }
}

#[test]
fn split_promotes_median() {
    let mut btree = Btree::new(4096);
    for i in 0..7 {
        btree.insert(item(i, &format!("value-{i}")));
    }
    let root = btree.root.as_ref().unwrap();
    assert_eq!(root.num_items, 1);
    assert_eq!(root.items[0].key, 2);
    assert_eq!(root.children.len(), 2);
    assert!(!root.is_leaf());
    assert_eq!(root.children[0].items.len(), 2);
    assert_eq!(root.children[1].items.len(), 4);
}

#[test]
fn search_across_split() {
    let mut btree = Btree::new(4096);
    for i in 0..7 {
        btree.insert(item(i, &format!("value-{i}")));
    }
    assert_eq!(btree.search(2).unwrap(), "value-2");
    assert_eq!(btree.search(4).unwrap(), "value-4");
    assert_eq!(btree.search(99), Err(BtreeError::NotFound));
}

#[test]
fn duplicate_no_op_keeps_single_item() {
    let mut btree = Btree::new(4096);
    btree.insert(item(100, "first"));
    btree.insert(item(100, "second"));
    assert_eq!(btree.root.as_ref().unwrap().num_items, 1);
    assert_eq!(btree.search(100).unwrap(), "first");
}

#[test]
fn delete_errors_on_empty_tree_and_absent_key() {
    let mut btree = Btree::new(4096);
    assert_eq!(btree.delete(1), Err(BtreeError::NotFound));
    btree.insert(item(1, "one"));
    assert_eq!(btree.delete(2), Err(BtreeError::NotFound));
    assert_eq!(btree.delete(1), Ok(()));
    assert_eq!(btree.delete(1), Err(BtreeError::NotFound));
    assert_eq!(btree.search(1), Err(BtreeError::NotFound));
}

#[test]
fn delete_everything_shrinks_tree() {
    let mut btree = Btree::new(4096);
    for k in 0..100 {
        btree.insert(item(k, "v"));
    }
    for k in scrambled(100) {
        assert_eq!(btree.delete(k), Ok(()));
    }
    let root = btree.root.as_ref().unwrap();
    assert!(root.is_leaf());
    assert_eq!(root.num_items, 0);
    for k in 0..100 {
        assert!(btree.search(k).is_err());
    }
}

#[test]
fn extreme_keys() {
    let mut btree = Btree::new(4096);
    btree.insert(item(i32::MIN, "min"));
    btree.insert(item(i32::MAX, "max"));
    btree.insert(item(0, "zero"));
    assert_eq!(btree.search(i32::MIN).unwrap(), "min");
    assert_eq!(btree.search(i32::MAX).unwrap(), "max");
    btree.snapshot().unwrap();
    let loaded = Btree::load_snapshot(btree.pager.bytes(), 4096).unwrap();
    assert_eq!(loaded.search(i32::MIN).unwrap(), "min");
    assert_eq!(loaded.search(i32::MAX).unwrap(), "max");
}

#[test]
fn invalid_page_size_makes_insert_a_no_op() {
    let mut btree = Btree::new(0);
    btree.insert(item(1, "one"));
    assert!(btree.root.is_none());
    assert_eq!(btree.search(1), Err(BtreeError::NotFound));
    let mut big = Btree::new(1024 * 1024 + 1);
    big.insert(item(1, "one"));
    assert!(big.root.is_none());
}

#[test]
fn allocation_assigns_consecutive_ids() {
    let mut btree = Btree::new(64);
    assert_eq!(btree.pager.allocate_page(), Ok(1));
    assert_eq!(btree.pager.allocate_page(), Ok(2));
    assert_eq!(btree.pager.num_pages, 2);
    assert_eq!(btree.pager.bytes().len(), 3 * 64);
    let mut bad = Btree::new(0);
    assert_eq!(bad.pager.allocate_page(), Err(BtreeError::InvalidInput));
    assert_eq!(bad.pager.num_pages, 0);
}

#[test]
fn snapshot_of_empty_tree_is_invalid_input() {
    let mut btree = Btree::new(4096);
    assert_eq!(btree.snapshot(), Err(BtreeError::InvalidInput));
}

#[test]
fn snapshot_with_oversized_value_is_invalid_input() {
    let mut btree = Btree::new(4096);
    btree.insert(item(1, &"x".repeat(5000)));
    assert_eq!(btree.snapshot(), Err(BtreeError::InvalidInput));
}

#[test]
fn snapshot_file_length_and_metadata_layout() {
    let mut btree = Btree::new(4096);
    for k in 0..20 {
        btree.insert(item(k, "v"));
    }
    btree.snapshot().unwrap();
    let bytes = btree.pager.bytes();
    assert_eq!(bytes.len(), (btree.pager.num_pages as usize + 1) * 4096);
    assert_eq!(&bytes[0..4], b"BTRE");
    assert_eq!(&bytes[4..8], &1u32.to_le_bytes());
    let root_id = btree.root.as_ref().unwrap().id;
    assert_eq!(&bytes[8..12], &root_id.to_le_bytes());
    assert_eq!(&bytes[12..16], &4096u32.to_le_bytes());
    assert_eq!(&bytes[16..20], &btree.pager.num_pages.to_le_bytes());
    assert!(bytes[28..4096].iter().all(|b| *b == 0));
}

#[test]
fn two_snapshots_differ_only_in_timestamp() {
    let mut btree = Btree::new(4096);
    for k in scrambled(40) {
        btree.insert(item(k, &format!("v{k}")));
    }
    btree.snapshot().unwrap();
    let first = btree.pager.bytes().to_vec();
    btree.snapshot().unwrap();
    let second = btree.pager.bytes().to_vec();
    assert_eq!(first.len(), second.len());
    assert_eq!(&first[0..20], &second[0..20]);
    assert_eq!(&first[28..], &second[28..]);
}

#[test]
fn round_trip_keeps_shape_and_values() {
    let mut btree = Btree::new(512);
    for k in scrambled(150) {
        btree.insert(item(k, &format!("value-{k}")));
    }
    for k in 0..150 {
        if k % 4 == 1 {
            btree.delete(k).unwrap();
        }
    }
    btree.snapshot().unwrap();
    let loaded = Btree::load_snapshot(btree.pager.bytes(), 512).unwrap();
    fn shape(node: &Node, out: &mut Vec<(u32, Vec<i32>, Vec<String>, usize)>) {
        out.push((
            node.id,
            node.items.iter().map(|i| i.key).collect(),
            node.items.iter().map(|i| i.val.clone()).collect(),
            node.children.len(),
        ));
        for c in &node.children {
            shape(c, out);
        }
    }
    let mut a = Vec::new();
    let mut b = Vec::new();
    shape(btree.root.as_ref().unwrap(), &mut a);
    shape(loaded.root.as_ref().unwrap(), &mut b);
    assert_eq!(a, b);
    assert_eq!(loaded.pager.num_pages, btree.pager.num_pages);
}

#[test]
fn non_ascii_values_survive_a_snapshot() {
    let mut btree = Btree::new(4096);
    btree.insert(item(7, "héllo wörld ✓"));
    btree.insert(item(8, ""));
    btree.snapshot().unwrap();
    let loaded = Btree::load_snapshot(btree.pager.bytes(), 4096).unwrap();
    assert_eq!(loaded.search(7).unwrap(), "héllo wörld ✓");
    assert_eq!(loaded.search(8).unwrap(), "");
}

#[test]
fn load_rejects_bad_input() {
    assert!(matches!(Btree::load_snapshot(&[], 4096), Err(BtreeError::InvalidInput)));
    let mut btree = Btree::new(4096);
    btree.insert(item(1, "one"));
    btree.snapshot().unwrap();
    let good = btree.pager.bytes().to_vec();
    assert!(matches!(Btree::load_snapshot(&good, 1024), Err(BtreeError::InvalidInput)));
    let mut bad_magic = good.clone();
    bad_magic[0] = b'X';
    assert!(matches!(Btree::load_snapshot(&bad_magic, 4096), Err(BtreeError::InvalidData)));
    let mut bad_version = good.clone();
    bad_version[4] = 2;
    assert!(matches!(Btree::load_snapshot(&bad_version, 4096), Err(BtreeError::InvalidData)));
    let mut bad_tag = good.clone();
    bad_tag[4096] = 7;
    assert!(matches!(Btree::load_snapshot(&bad_tag, 4096), Err(BtreeError::InvalidData)));
    let truncated = good[..4096 + 100].to_vec();
    assert!(matches!(Btree::load_snapshot(&truncated, 4096), Err(BtreeError::InvalidData)));
    assert!(!Btree::is_valid_snapshot(&bad_magic, 4096));
    assert!(!Btree::is_valid_snapshot(&good, 1024));
    assert!(Btree::is_valid_snapshot(&good, 4096));
}

#[test]
fn load_falls_back_to_page_one_for_root_id_zero() {
    let mut btree = Btree::new(4096);
    btree.insert(item(3, "three"));
    btree.snapshot().unwrap();
    let mut bytes = btree.pager.bytes().to_vec();
    bytes[8..12].copy_from_slice(&0u32.to_le_bytes());
    let loaded = Btree::load_snapshot(&bytes, 4096).unwrap();
    assert_eq!(loaded.search(3).unwrap(), "three");
}

#[test]
fn load_rejects_child_id_out_of_range() {
    let mut btree = Btree::new(4096);
    for k in 0..7 {
        btree.insert(item(k, "v"));
    }
    btree.snapshot().unwrap();
    let mut bytes = btree.pager.bytes().to_vec();
    let root_id = btree.root.as_ref().unwrap().id as usize;
    let page = &mut bytes[root_id * 4096..(root_id + 1) * 4096];
    let val_len = u32::from_le_bytes(page[9..13].try_into().unwrap()) as usize;
    let first_child = 13 + val_len;
    page[first_child..first_child + 4].copy_from_slice(&99u32.to_le_bytes());
    assert!(matches!(Btree::load_snapshot(&bytes, 4096), Err(BtreeError::InvalidData)));
}

#[test]
fn page_codec_layout_and_round_trip() {
    let page = Page::Internal {
        id: 4,
        items: vec![item(-1, "ab")],
        children: vec![2, 3],
    };
    let buf = encode_page(&page, 64).unwrap();
    assert_eq!(buf.len(), 64);
    let mut expected = vec![1u8];
    expected.extend_from_slice(&1u32.to_le_bytes());
    expected.extend_from_slice(&(-1i32).to_le_bytes());
    expected.extend_from_slice(&2u32.to_le_bytes());
    expected.extend_from_slice(b"ab");
    expected.extend_from_slice(&2u32.to_le_bytes());
    expected.extend_from_slice(&3u32.to_le_bytes());
    assert_eq!(&buf[..expected.len()], &expected[..]);
    assert!(buf[expected.len()..].iter().all(|b| *b == 0));
    match decode_page(&buf, 4).unwrap() {
        Page::Internal { id, items, children } => {
            assert_eq!(id, 4);
            assert_eq!(items.len(), 1);
            assert_eq!(items[0].key, -1);
            assert_eq!(items[0].val, "ab");
            assert_eq!(children, vec![2, 3]);
        }
        Page::Leaf { .. } => panic!("expected an internal page"),
    }
    assert_eq!(encode_page(&page, 16).err(), Some(BtreeError::InvalidInput));
    let mut bad = buf.clone();
    bad[0] = 2;
    assert_eq!(decode_page(&bad, 4).err(), Some(BtreeError::InvalidData));
    let mut long = buf.clone();
    long[9..13].copy_from_slice(&1000u32.to_le_bytes());
    assert_eq!(decode_page(&long, 4).err(), Some(BtreeError::InvalidData));
}

#[test]
fn invalid_utf8_value_is_replaced_on_decode() {
    let mut buf = vec![0u8];
    buf.extend_from_slice(&1u32.to_le_bytes());
    buf.extend_from_slice(&5i32.to_le_bytes());
    buf.extend_from_slice(&2u32.to_le_bytes());
    buf.extend_from_slice(&[0x61, 0xff]);
    buf.resize(32, 0);
    match decode_page(&buf, 1).unwrap() {
        Page::Leaf { items, .. } => assert_eq!(items[0].val, "a\u{FFFD}"),
        Page::Internal { .. } => panic!("expected a leaf page"),
    }
}

#[test]
fn metadata_serialize_round_trip() {
    let meta = BtreeMetadata::new(3, 4096, 9);
    assert!(meta.created_at > 1_600_000_000);
    let bytes = meta.serialize();
    assert_eq!(bytes.len(), 4096);
    assert_eq!(&bytes[0..4], b"BTRE");
    let back = BtreeMetadata::deserialize(&bytes).unwrap();
    assert_eq!(back.version, 1);
    assert_eq!(back.root_page_id, 3);
    assert_eq!(back.page_size, 4096);
    assert_eq!(back.num_pages, 9);
    assert_eq!(back.created_at, meta.created_at);
    assert_eq!(BtreeMetadata::deserialize(&bytes[..27]).err(), Some(BtreeError::InvalidData));
}

#[test]
fn node_search_and_positional_inserts() {
    let mut node = Node::new(1);
    assert!(node.is_leaf());
    node.insert_item_at(0, item(10, "a"));
    node.insert_item_at(0, item(30, "c"));
    node.insert_item_at(0, item(20, "b"));
    let keys: Vec<i32> = node.items.iter().map(|i| i.key).collect();
    assert_eq!(keys, vec![10, 20, 30]);
    assert_eq!(node.num_items, 3);
    node.insert_item_at(5, item(40, "d"));
    assert_eq!(node.num_items, 3);
    assert_eq!(node.search(20), (1, true));
    assert_eq!(node.search(25), (2, false));
    assert_eq!(node.search(5), (0, false));
    assert_eq!(node.search(99), (3, false));
    node.insert_child_at(0, Node::new(2));
    assert_eq!(node.children.len(), 1);
    node.insert_child_at(4, Node::new(3));
    assert_eq!(node.children.len(), 1);
    assert!(!node.is_leaf());
}

#[test]
fn page_of_node_and_back() {
    let mut btree = Btree::new(4096);
    for k in 0..7 {
        btree.insert(item(k, &format!("value-{k}")));
    }
    let root = btree.root.as_ref().unwrap();
    let page = root.to_page();
    match &page {
        Page::Internal { id, items, children } => {
            assert_eq!(*id, root.id);
            assert_eq!(items[0].val, "value-2");
            assert_eq!(children.len(), 2);
            assert_eq!(children[0], root.children[0].id);
        }
        Page::Leaf { .. } => panic!("expected an internal page"),
    }
    let node = Node::from_page(&page);
    assert_eq!(node.id, root.id);
    assert_eq!(node.num_items, 1);
    assert_eq!(node.items[0].key, 2);
    assert!(node.children.is_empty());
}

#[test]
fn validate_accepts_trees_and_rejects_disorder() {
    let mut btree = Btree::new(4096);
    for k in 0..7 {
        btree.insert(item(k, "v"));
    }
    let root = btree.root.as_ref().unwrap();
    assert_eq!(root.validate(i32::MIN as i64 - 1, i32::MAX as i64 + 1), Some(1));
    assert_eq!(root.validate(0, 100), None);
    let mut leaf = Node::new(1);
    leaf.items.push(item(5, "a"));
    leaf.items.push(item(3, "b"));
    leaf.num_items = 2;
    assert_eq!(leaf.validate(-10, 10), None);
    leaf.items.swap(0, 1);
    assert_eq!(leaf.validate(-10, 10), Some(0));
    leaf.num_items = 3;
    assert_eq!(leaf.validate(-10, 10), None);
}

#[test]
fn load_rejects_overfull_root_page() {
    let items: Vec<Item> = (0..7).map(|k| item(k, "v")).collect();
    let page = Page::Leaf { id: 1, items };
    let mut bytes = BtreeMetadata::new(1, 4096, 1).serialize();
    bytes.extend_from_slice(&encode_page(&page, 4096).unwrap());
    assert!(Btree::is_valid_snapshot(&bytes, 4096));
    assert!(matches!(Btree::load_snapshot(&bytes, 4096), Err(BtreeError::InvalidData)));
    let six: Vec<Item> = (0..6).map(|k| item(k, "v")).collect();
    let mut ok_bytes = BtreeMetadata::new(1, 4096, 1).serialize();
    ok_bytes.extend_from_slice(&encode_page(&Page::Leaf { id: 1, items: six }, 4096).unwrap());
    let loaded = Btree::load_snapshot(&ok_bytes, 4096).unwrap();
    assert_eq!(loaded.search(5).unwrap(), "v");
}

#[test]
fn metadata_with_timestamp_keeps_fields() {
    let meta = BtreeMetadata::with_timestamp(2, 512, 7, 1234);
    assert_eq!(meta.created_at, 1234);
    let bytes = meta.serialize();
    assert_eq!(&bytes[20..28], &1234u64.to_le_bytes());
    assert_eq!(BtreeMetadata::deserialize(&bytes).unwrap().root_page_id, 2);
}

#[test]
fn page_size_mismatch_wins_over_version() {
    let mut btree = Btree::new(4096);
    btree.insert(item(1, "one"));
    btree.snapshot().unwrap();
    let mut bytes = btree.pager.bytes().to_vec();
    bytes[4] = 9;
    assert!(matches!(Btree::load_snapshot(&bytes, 1024), Err(BtreeError::InvalidInput)));
    assert!(matches!(Btree::load_snapshot(&bytes, 4096), Err(BtreeError::InvalidData)));
}
