use imfs::{CacheError, HashedTreeMap, TreeNode};

#[test]
fn insertion() {
    let mut tree = HashedTreeMap::new("root".to_string(), TreeNode::new("root"));
    let root = tree.get("root").unwrap().id.clone();
    tree.insert(&root, "1".to_string(), "1".to_string(), "1").unwrap();
    let one = tree.get("1").unwrap();
    assert_eq!(one.value, "1");
    let one_id = one.id.clone();
    tree.insert(&one_id, "2".to_string(), "2".to_string(), "2").unwrap();
    let two = tree.get("2").unwrap();
    assert_eq!(two.value, "2");
}

#[test]
fn insert_rejects_taken_id_and_missing_parent() {
    let mut tree = HashedTreeMap::new("r".to_string(), TreeNode::new(0u32));
    tree.insert("r", "r/a".to_string(), "a".to_string(), 1).unwrap();
    let again = tree.insert("r", "r/a".to_string(), "a".to_string(), 2);
    assert_eq!(
        again,
        Err(CacheError::LocationAlreadyExistsError { location: "r/a".to_string() })
    );
    assert_eq!(tree.get("r/a").unwrap().value, 1);
    let orphan = tree.insert("r/x", "r/x/y".to_string(), "y".to_string(), 3);
    assert_eq!(
        orphan,
        Err(CacheError::LocationDoesNotExistError { location: "r/x".to_string() })
    );
    assert!(tree.get("r/x/y").is_none());
}

#[test]
fn node_records_name_and_parent() {
    let mut tree = HashedTreeMap::new("r".to_string(), TreeNode::new('r'));
    tree.insert("r", "r/a".to_string(), "a".to_string(), 'a').unwrap();
    let a = tree.get("r/a").unwrap();
    assert_eq!(a.name, "a");
    assert!(a.parent.is_some());
    assert!(a.children.is_empty());
    let r = tree.get("r").unwrap();
    assert!(r.parent.is_none());
    assert_eq!(r.children.len(), 1);
}

#[test]
fn tree_remove_takes_whole_subtree() {
    let mut tree = HashedTreeMap::new("r".to_string(), TreeNode::new(0u8));
    tree.insert("r", "r/a".to_string(), "a".to_string(), 1).unwrap();
    tree.insert("r/a", "r/a/b".to_string(), "b".to_string(), 2).unwrap();
    tree.insert("r/a/b", "r/a/b/c".to_string(), "c".to_string(), 3).unwrap();
    tree.insert("r/a", "r/a/d".to_string(), "d".to_string(), 4).unwrap();
    tree.insert("r", "r/e".to_string(), "e".to_string(), 5).unwrap();
    assert_eq!(tree.remove("r/a"), Ok(()));
    for gone in ["r/a", "r/a/b", "r/a/b/c", "r/a/d"] {
        assert!(tree.get(gone).is_none(), "{} should be gone", gone);
    }
    assert_eq!(tree.get("r/e").unwrap().value, 5);
    assert_eq!(tree.get("r").unwrap().children.len(), 1);
    // the identifier can be used again
    tree.insert("r", "r/a".to_string(), "a".to_string(), 9).unwrap();
    assert_eq!(tree.get("r/a").unwrap().value, 9);
    assert!(tree.get("r/a/b").is_none());
}

#[test]
fn tree_remove_missing_is_refused() {
    let mut tree = HashedTreeMap::new("r".to_string(), TreeNode::new(0u8));
    assert_eq!(
        tree.remove("r/nothing"),
        Err(CacheError::LocationDoesNotExistError { location: "r/nothing".to_string() })
    );
    assert!(tree.get("r").is_some());
}

#[test]
fn tree_remove_root_empties_it() {
    let mut tree = HashedTreeMap::new("r".to_string(), TreeNode::new(0u8));
    tree.insert("r", "r/a".to_string(), "a".to_string(), 1).unwrap();
    assert_eq!(tree.remove("r"), Ok(()));
    assert!(tree.get("r").is_none());
    assert!(tree.get("r/a").is_none());
}
