use qinhuai::storage::prolly::{BasicPolicy, BasicTree, Bound, Policy};
use qinhuai::storage::vfs::MemoryFileSystem;
use qinhuai::storage::StorageError;
use rand::Rng;

#[test]
fn test_tree_insert_get_remove() {
    let mut tree = BasicTree::new(BasicPolicy);
    assert!(!tree.insert(b"key", b"value"));
    assert_eq!(tree.get(b"key"), Some(b"value".to_vec()));
    assert!(tree.insert(b"key", b"other"));
    assert_eq!(tree.get(b"key"), Some(b"other".to_vec()));
    assert!(tree.remove(b"key"));
    assert_eq!(tree.get(b"key"), None);
    assert!(!tree.remove(b"key"));
}

#[test]
fn test_tree_iterate_three_keys() {
    // Insert three bindings and walk them off in order.
    let mut tree = BasicTree::new(BasicPolicy);
    tree.insert(b"b", b"2");
    tree.insert(b"a", b"1");
    tree.insert(b"c", b"3");

    let mut cursor = tree.lower_bound(&Bound::Unbounded);
    assert_eq!(cursor.next(), Some((b"a".to_vec(), b"1".to_vec())));
    assert_eq!(cursor.next(), Some((b"b".to_vec(), b"2".to_vec())));
    assert_eq!(cursor.next(), Some((b"c".to_vec(), b"3".to_vec())));
    assert_eq!(cursor.next(), None);
}

#[test]
fn test_tree_cursor_bounds() {
    let mut tree = BasicTree::new(BasicPolicy);
    tree.insert(b"b", b"2");
    tree.insert(b"d", b"4");
    tree.insert(b"f", b"6");

    let mut c = tree.lower_bound(&Bound::Included(b"d".to_vec()));
    assert_eq!(c.peek_next(), Some((b"d".to_vec(), b"4".to_vec())));
    assert_eq!(c.peek_prev(), Some((b"b".to_vec(), b"2".to_vec())));

    let mut c = tree.lower_bound(&Bound::Excluded(b"d".to_vec()));
    assert_eq!(c.next(), Some((b"f".to_vec(), b"6".to_vec())));

    let mut c = tree.upper_bound(&Bound::Included(b"d".to_vec()));
    assert_eq!(c.prev(), Some((b"d".to_vec(), b"4".to_vec())));

    let mut c = tree.upper_bound(&Bound::Excluded(b"d".to_vec()));
    assert_eq!(c.prev(), Some((b"b".to_vec(), b"2".to_vec())));

    let mut c = tree.upper_bound(&Bound::Unbounded);
    assert_eq!(c.next(), None);
    assert_eq!(c.prev(), Some((b"f".to_vec(), b"6".to_vec())));

    // A bound between keys lands on the gap.
    let mut c = tree.lower_bound(&Bound::Included(b"c".to_vec()));
    assert_eq!(c.next(), Some((b"d".to_vec(), b"4".to_vec())));
}

#[test]
fn test_tree_iteration_ascending() {
    // Whatever the insertion order, iteration yields every key once, in
    // strictly ascending order.
    let mut tree = BasicTree::new(BasicPolicy);
    let keys: Vec<Vec<u8>> = (0..200u32)
        .map(|i| (i.wrapping_mul(2654435761) % 1000).to_be_bytes().to_vec())
        .collect();
    for k in &keys {
        tree.insert(k, b"v");
    }
    let mut seen = Vec::new();
    let mut cursor = tree.lower_bound(&Bound::Unbounded);
    while let Some((k, _)) = cursor.next() {
        seen.push(k);
    }
    let mut expected: Vec<Vec<u8>> = keys.clone();
    expected.sort();
    expected.dedup();
    assert_eq!(seen, expected);
    for w in seen.windows(2) {
        assert!(w[0] < w[1]);
    }
}

#[test]
fn test_tree_unicity_random_orders() {
    // Insert the same ten thousand random bindings in two different orders;
    // the root content hashes agree.
    let mut rng = rand::thread_rng();
    let mut pairs: Vec<(Vec<u8>, Vec<u8>)> = Vec::new();
    for _ in 0..10_000 {
        let key: Vec<u8> = (0..16).map(|_| rng.gen::<u8>()).collect();
        let value: Vec<u8> = (0..8).map(|_| rng.gen::<u8>()).collect();
        pairs.push((key, value));
    }

    let mut forward = BasicTree::new(BasicPolicy);
    for (k, v) in pairs.iter() {
        forward.insert(k, v);
    }
    let mut backward = BasicTree::new(BasicPolicy);
    for (k, v) in pairs.iter().rev() {
        backward.insert(k, v);
    }
    // Duplicate keys resolve differently between the orders; rebind them so
    // both trees hold the same map.
    for (k, v) in pairs.iter() {
        backward.insert(k, v);
    }
    assert_eq!(forward.root_hash(), backward.root_hash());
}

#[test]
fn test_tree_root_hash_tracks_content() {
    // The root hash is a function of the entries: it returns to its old
    // value when the entries return to theirs.
    let mut tree = BasicTree::new(BasicPolicy);
    let empty = tree.root_hash();
    tree.insert(b"a", b"1");
    let one = tree.root_hash();
    assert_ne!(empty, one);
    tree.insert(b"b", b"2");
    tree.remove(b"b");
    assert_eq!(tree.root_hash(), one);
    tree.remove(b"a");
    assert_eq!(tree.root_hash(), empty);
}

#[test]
fn test_commit_reopen_same_root() {
    // After a commit, reopening the file observes the same root hash.
    let mut fs = MemoryFileSystem::default();
    let file = fs.open("store").unwrap();
    let mut tree = BasicTree::new(BasicPolicy);
    for i in 0..1000u32 {
        tree.insert(&i.to_be_bytes(), &i.to_le_bytes());
    }
    tree.commit(&mut fs, &file).unwrap();
    let reopened = BasicTree::open(BasicPolicy, &fs, &file).unwrap();
    assert_eq!(reopened.root_hash(), tree.root_hash());
    assert_eq!(reopened.get(&42u32.to_be_bytes()), Some(42u32.to_le_bytes().to_vec()));
}

#[test]
fn test_discard_restores_committed_root() {
    // Insert a thousand keys and commit; delete half and discard; the root
    // hash equals the post-insert root hash again.
    let mut fs = MemoryFileSystem::default();
    let file = fs.open("store").unwrap();
    let mut tree = BasicTree::new(BasicPolicy);
    for i in 0..1000u32 {
        tree.insert(&i.to_be_bytes(), b"v");
    }
    tree.commit(&mut fs, &file).unwrap();
    let committed = tree.root_hash();

    for i in 0..500u32 {
        assert!(tree.remove(&i.to_be_bytes()));
    }
    assert_ne!(tree.root_hash(), committed);

    tree.discard(&fs, &file).unwrap();
    assert_eq!(tree.root_hash(), committed);
    assert_eq!(tree.get(&3u32.to_be_bytes()), Some(b"v".to_vec()));
}

#[test]
fn test_open_rejects_corrupt_snapshot() {
    // A file that is not a canonical snapshot is rejected.
    let mut fs = MemoryFileSystem::default();
    let file = fs.open("store").unwrap();
    file.write(&mut fs, 0, &[0xFF, 0xFF, 0xFF]).unwrap();
    assert_eq!(
        BasicTree::<BasicPolicy>::open(BasicPolicy, &fs, &file).err(),
        Some(StorageError::CorruptFormat)
    );
}

#[test]
fn test_leaf_nodes_follow_policy() {
    // The leaf level satisfies the structural invariants: nodes are
    // nonempty, they partition the entries in order, every node but the
    // last ends exactly where the policy places a boundary, and no interior
    // position accepts one.
    let mut tree = BasicTree::new(BasicPolicy);
    for i in 0..500u32 {
        tree.insert(&i.to_be_bytes(), b"v");
    }
    let nodes = tree.leaf_nodes();
    assert!(!nodes.is_empty());

    let mut walked: Vec<(Vec<u8>, Vec<u8>)> = Vec::new();
    for (c, node) in nodes.iter().enumerate() {
        assert_eq!(node.height, 0);
        assert!(!node.entries.is_empty());
        let size = node.entries.len();
        for (t, entry) in node.entries.iter().enumerate() {
            if t + 1 < size {
                assert!(!BasicPolicy.boundary_decision(0, &entry.key, t + 1));
            }
            walked.push((entry.key.clone(), entry.value.clone()));
        }
        if c + 1 < nodes.len() {
            let last = &node.entries[size - 1];
            assert!(BasicPolicy.boundary_decision(0, &last.key, size));
        }
    }
    let mut cursor = tree.lower_bound(&Bound::Unbounded);
    let mut expected = Vec::new();
    while let Some(kv) = cursor.next() {
        expected.push(kv);
    }
    assert_eq!(walked, expected);
}
