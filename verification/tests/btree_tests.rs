use kvdb::btree::BTree;
use kvdb::node::Node;
use kvdb::pager::Pager;

fn b(s: &str) -> Vec<u8> {
    s.as_bytes().to_vec()
}

fn fresh() -> (BTree, Pager) {
    (BTree::new(None), Pager::new())
}

#[test]
fn test_delete_logic_simple() {
    let (mut tree, mut pager) = fresh();

    tree.insert(b("Key1"), b("Val1"), &mut pager).unwrap();
    tree.insert(b("Key2"), b("Val2"), &mut pager).unwrap();

    tree.delete(&b("Key1"), &mut pager).unwrap();

    assert_eq!(tree.search(&b("Key1"), &pager), None);
    assert_eq!(tree.search(&b("Key2"), &pager), Some(b("Val2")));
}

#[test]
fn test_5_debug_mini_stress() {
    let (mut tree, mut pager) = fresh();

    for i in 0..20 {
        let k = b(&format!("{:03}", i));
        tree.insert(k.clone(), k, &mut pager).unwrap();
    }

    for i in (0..20).step_by(2) {
        let k = b(&format!("{:03}", i));
        tree.delete(&k, &mut pager).unwrap();

        if tree.search(&k, &pager).is_some() {
            panic!("key {} still found right after its deletion", i);
        }
    }

    for i in 0..20 {
        let k = b(&format!("{:03}", i));
        let result = tree.search(&k, &pager);

        if i % 2 == 0 {
            if result.is_some() {
                panic!("key {} was deleted but is still found", i);
            }
        } else {
            if result.is_none() {
                panic!("key {} should still exist but is gone", i);
            }
        }
    }
    assert!(tree.validate(&pager));
}

#[test]
fn test_delete_integration() {
    let (mut tree, mut pager) = fresh();

    for i in 0..10 {
        let key = b(&format!("key{}", i));
        let value = b(&format!("value{}", i));
        tree.insert(key.clone(), value.clone(), &mut pager).unwrap();
        assert_eq!(tree.search(&key, &pager), Some(value));
    }

    tree.delete(&b("key3"), &mut pager).unwrap();
    assert_eq!(tree.search(&b("key3"), &pager), None);

    tree.delete(&b("key7"), &mut pager).unwrap();
    assert_eq!(tree.search(&b("key7"), &pager), None);

    assert_eq!(tree.search(&b("key0"), &pager), Some(b("value0")));
    assert_eq!(tree.search(&b("key9"), &pager), Some(b("value9")));

    for i in 0..10 {
        if i != 3 && i != 7 {
            let key = b(&format!("key{}", i));
            tree.delete(&key, &mut pager).unwrap();
            assert_eq!(tree.search(&key, &pager), None);
        }
    }

    assert!(tree.root.is_none());
}

#[test]
fn full_leaf_then_first_split() {
    let (mut tree, mut pager) = fresh();
    for k in ["a", "b", "c", "d", "e"] {
        tree.insert(b(k), b(k), &mut pager).unwrap();
    }
    // five keys: the root is still a single leaf at maximum capacity
    let root = Node::load(tree.root.unwrap(), &pager).unwrap();
    assert!(root.is_leaf);
    assert_eq!(root.keys.len(), 5);

    // the next insert causes the first root split
    tree.insert(b("f"), b("f"), &mut pager).unwrap();
    let root = Node::load(tree.root.unwrap(), &pager).unwrap();
    assert!(!root.is_leaf);
    assert!(tree.validate(&pager));
}

#[test]
fn delete_to_empty_clears_header() {
    let (mut tree, mut pager) = fresh();
    tree.insert(b("only"), b("one"), &mut pager).unwrap();
    tree.delete(&b("only"), &mut pager).unwrap();
    assert!(tree.root.is_none());
    // the first 8 header bytes are zero: the empty tree
    assert_eq!(&pager.as_bytes()[0..8], &[0u8; 8]);
    let reopened = BTree::load_from_pager(&pager).unwrap();
    assert!(reopened.root.is_none());
}

#[test]
fn root_shrinks_back_to_leaf() {
    let (mut tree, mut pager) = fresh();
    for k in ["a", "b", "c", "d", "e", "f"] {
        tree.insert(b(k), b(k), &mut pager).unwrap();
    }
    let root = Node::load(tree.root.unwrap(), &pager).unwrap();
    assert!(!root.is_leaf);

    // shrinking both leaves forces a merge that empties the root
    tree.delete(&b("f"), &mut pager).unwrap();
    tree.delete(&b("e"), &mut pager).unwrap();
    let root = Node::load(tree.root.unwrap(), &pager).unwrap();
    assert!(root.is_leaf);
    for k in ["a", "b", "c", "d"] {
        assert_eq!(tree.search(&b(k), &pager), Some(b(k)));
    }
    assert!(tree.validate(&pager));
}

#[test]
fn five_keys_one_leaf() {
    let (mut tree, mut pager) = fresh();
    for k in ["a", "b", "c", "d", "e"] {
        tree.insert(b(k), b(k), &mut pager).unwrap();
    }
    let root = Node::load(tree.root.unwrap(), &pager).unwrap();
    assert!(root.is_leaf);
    assert_eq!(root.keys, vec![b("a"), b("b"), b("c"), b("d"), b("e")]);
    for k in ["a", "b", "c", "d", "e"] {
        assert_eq!(tree.search(&b(k), &pager), Some(b(k)));
    }
    assert_eq!(tree.search(&b("z"), &pager), None);
}

#[test]
fn six_keys_split_promotes_median() {
    let (mut tree, mut pager) = fresh();
    for k in ["a", "b", "c", "d", "e", "f"] {
        tree.insert(b(k), b(k), &mut pager).unwrap();
    }
    let root = Node::load(tree.root.unwrap(), &pager).unwrap();
    assert!(!root.is_leaf);
    assert_eq!(root.keys, vec![b("c")]);
    assert_eq!(root.children.len(), 2);
    let left = Node::load(root.children[0], &pager).unwrap();
    let right = Node::load(root.children[1], &pager).unwrap();
    assert!(left.is_leaf && right.is_leaf);
    assert_eq!(left.keys, vec![b("a"), b("b")]);
    assert_eq!(right.keys, vec![b("d"), b("e"), b("f")]);
}

#[test]
fn padded_numbers_delete_evens() {
    let (mut tree, mut pager) = fresh();
    for i in 0..20 {
        let k = b(&format!("{:03}", i));
        tree.insert(k.clone(), k, &mut pager).unwrap();
    }
    for i in (0..19).step_by(2) {
        let k = b(&format!("{:03}", i));
        tree.delete(&k, &mut pager).unwrap();
        assert_eq!(tree.search(&k, &pager), None);
    }
    for i in (1..20).step_by(2) {
        let k = b(&format!("{:03}", i));
        assert_eq!(tree.search(&k, &pager), Some(k));
    }
    assert!(tree.validate(&pager));
}

#[test]
fn scattered_letters_all_found() {
    let keys = [
        "m", "d", "p", "c", "b", "a", "e", "f", "g", "h", "i", "j", "k", "l", "n", "o", "q", "r",
        "s", "t",
    ];
    let (mut tree, mut pager) = fresh();
    for k in keys {
        let mut v = b("val_");
        v.extend_from_slice(k.as_bytes());
        tree.insert(b(k), v, &mut pager).unwrap();
    }
    for k in keys {
        let mut v = b("val_");
        v.extend_from_slice(k.as_bytes());
        assert_eq!(tree.search(&b(k), &pager), Some(v));
    }
    assert!(tree.validate(&pager));
}

#[test]
fn reopen_preserves_answers() {
    let (mut tree, mut pager) = fresh();
    tree.insert(b("key1"), b("v1"), &mut pager).unwrap();
    tree.insert(b("key2"), b("v2"), &mut pager).unwrap();

    // a new store instance over the same file bytes
    let bytes = pager.as_bytes().clone();
    let pager2 = Pager::from_bytes(bytes);
    let tree2 = BTree::load_from_pager(&pager2).unwrap();
    assert_eq!(tree2.search(&b("key1"), &pager2), Some(b("v1")));
    assert_eq!(tree2.search(&b("key2"), &pager2), Some(b("v2")));
}

#[test]
fn delete_all_clears_root_pointer() {
    let (mut tree, mut pager) = fresh();
    for i in 0..10 {
        let k = b(&format!("k{}", i));
        tree.insert(k.clone(), k, &mut pager).unwrap();
    }
    let len_after_inserts = pager.as_bytes().len();
    // arbitrary order
    for i in [7, 2, 9, 0, 4, 8, 1, 6, 3, 5] {
        let k = b(&format!("k{}", i));
        tree.delete(&k, &mut pager).unwrap();
    }
    assert!(tree.root.is_none());
    assert_eq!(&pager.as_bytes()[0..8], &[0u8; 8]);
    // the file only ever grows: pages are appended, never reclaimed
    assert!(pager.as_bytes().len() >= len_after_inserts);
}

#[test]
fn overwrite_replaces_value() {
    let (mut tree, mut pager) = fresh();
    tree.insert(b("k"), b("v"), &mut pager).unwrap();
    tree.insert(b("k"), b("w"), &mut pager).unwrap();
    assert_eq!(tree.search(&b("k"), &pager), Some(b("w")));
    // overwriting adds no entry: still a single-key leaf
    let root = Node::load(tree.root.unwrap(), &pager).unwrap();
    assert!(root.is_leaf);
    assert_eq!(root.keys.len(), 1);
}

#[test]
fn delete_absent_key_is_noop() {
    let (mut tree, mut pager) = fresh();
    for k in ["a", "b", "c"] {
        tree.insert(b(k), b(k), &mut pager).unwrap();
    }
    tree.delete(&b("zz"), &mut pager).unwrap();
    for k in ["a", "b", "c"] {
        assert_eq!(tree.search(&b(k), &pager), Some(b(k)));
    }
    assert!(tree.validate(&pager));
}

#[test]
fn oversized_pair_is_rejected() {
    let (mut tree, mut pager) = fresh();
    let big = vec![7u8; 800];
    let r = tree.insert(b("k"), big, &mut pager);
    assert_eq!(r, Err(kvdb::btree::BtError::TooLarge));
    assert_eq!(tree.search(&b("k"), &pager), None);
}
