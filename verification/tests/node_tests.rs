use crsl::cid::ContentId;
use crsl::metadata::ContentMetadata;
use crsl::node::Node;

fn cid(label: &[u8]) -> ContentId {
    ContentId::new(label).unwrap()
}

#[test]
fn node_test_entry_creation_with_default_metadata() {
    let node = Node::new_genesis("test payload".to_string(), 1234567890, ContentMetadata::new());
    assert_eq!(node.payload(), "test payload");
    assert_eq!(node.timestamp(), 1234567890);
    assert!(node.parents().is_empty());
    assert!(node.genesis.is_none());
}

#[test]
fn node_test_entry_multiple_parents() {
    let parents = vec![cid(b"test1"), cid(b"test2")];
    let node = Node::new_child(
        "test payload".to_string(),
        parents.clone(),
        cid(b"genesis"),
        1234567890,
        ContentMetadata::new(),
    );
    assert_eq!(node.parents().len(), 2);
    assert_eq!(node.parents()[0], parents[0]);
    assert_eq!(node.timestamp(), 1234567890);
    assert_eq!(node.genesis.as_ref().unwrap(), &cid(b"genesis"));
}

#[test]
fn node_test_to_bytes_roundtrip() {
    let node = Node::new_child(
        "test".to_string(),
        vec![cid(b"p1")],
        cid(b"genesis"),
        1234567890,
        ContentMetadata::new(),
    );
    let bytes = node.to_bytes().unwrap();
    let decoded = Node::from_bytes(&bytes).unwrap();
    assert_eq!(decoded, node);
    let reencoded = decoded.to_bytes().unwrap();
    assert_eq!(reencoded, bytes);
}

#[test]
fn node_roundtrip_covers_every_shape() {
    let shapes = vec![
        Node::new_genesis(String::new(), 0, ContentMetadata::new()),
        Node::new_genesis("π payload 🌍".to_string(), u64::MAX, ContentMetadata::with_policy("custom")),
        Node::new_child("x".to_string(), vec![], cid(b"g"), 7, ContentMetadata::with_policy("lww")),
        Node::new_child(
            "y".to_string(),
            vec![cid(b"a"), cid(b"b"), cid(b"c")],
            cid(b"g"),
            99,
            ContentMetadata::new(),
        ),
    ];
    for node in shapes {
        let bytes = node.to_bytes().unwrap();
        let decoded = Node::from_bytes(&bytes).unwrap();
        assert_eq!(decoded, node);
    }
}

#[test]
fn test_genesis_content_id() {
    let a = Node::new_genesis("test".to_string(), 1234567890, ContentMetadata::new());
    let b = Node::new_genesis("test".to_string(), 1234567890, ContentMetadata::new());
    assert_eq!(a.content_id().unwrap(), b.content_id().unwrap());
}

#[test]
fn node_test_content_id() {
    let a = Node::new_child(
        "test".to_string(),
        vec![cid(b"p")],
        cid(b"genesis"),
        1234567890,
        ContentMetadata::new(),
    );
    let b = Node::new_child(
        "test".to_string(),
        vec![cid(b"p")],
        cid(b"genesis"),
        1234567890,
        ContentMetadata::new(),
    );
    assert_eq!(a.content_id().unwrap(), b.content_id().unwrap());
}

#[test]
fn changing_any_field_changes_the_cid() {
    let base = Node::new_child(
        "payload".to_string(),
        vec![cid(b"p")],
        cid(b"genesis"),
        10,
        ContentMetadata::new(),
    );
    let base_cid = base.content_id().unwrap();

    let mut other = base.clone();
    other.payload = "payload2".to_string();
    assert_ne!(other.content_id().unwrap(), base_cid);

    let mut other = base.clone();
    other.parents = vec![cid(b"q")];
    assert_ne!(other.content_id().unwrap(), base_cid);

    let mut other = base.clone();
    other.genesis = Some(cid(b"genesis2"));
    assert_ne!(other.content_id().unwrap(), base_cid);

    let mut other = base.clone();
    other.timestamp = 11;
    assert_ne!(other.content_id().unwrap(), base_cid);

    let mut other = base.clone();
    other.metadata = ContentMetadata::with_policy("custom");
    assert_ne!(other.content_id().unwrap(), base_cid);
}

#[test]
fn node_test_verify_self_integrity_with_correct_cid() {
    let node = Node::new_child(
        "test".to_string(),
        vec![],
        cid(b"genesis"),
        1234567890,
        ContentMetadata::new(),
    );
    let id = node.content_id().unwrap();
    assert!(node.verify_self_integrity(&id).unwrap());
}

#[test]
fn node_test_verify_self_integrity_with_wrong_cid() {
    let node = Node::new_child(
        "test".to_string(),
        vec![],
        cid(b"genesis"),
        1234567890,
        ContentMetadata::new(),
    );
    let wrong = cid(b"different");
    assert!(!node.verify_self_integrity(&wrong).unwrap());
}

#[test]
fn node_test_add_parent_basic() {
    let mut node = Node::new_child(
        "test payload".to_string(),
        vec![cid(b"parent1")],
        cid(b"genesis"),
        1234567890,
        ContentMetadata::new(),
    );
    assert_eq!(node.parents().len(), 1);
    node.add_parent(cid(b"parent2")).unwrap();
    assert_eq!(node.parents().len(), 2);
    assert_eq!(node.parents()[1], cid(b"parent2"));
    // a duplicate parent is refused
    assert!(node.add_parent(cid(b"parent2")).is_err());
    assert_eq!(node.parents().len(), 2);
}

#[test]
fn node_test_add_parent_changes_cid() {
    let mut node = Node::new_child(
        "test".to_string(),
        vec![cid(b"parent1")],
        cid(b"genesis"),
        1,
        ContentMetadata::new(),
    );
    let before = node.content_id().unwrap();
    node.add_parent(cid(b"parent2")).unwrap();
    assert_ne!(node.content_id().unwrap(), before);
}

#[test]
fn node_test_add_multiple_parents() {
    let mut node = Node::new_child(
        "test payload".to_string(),
        vec![cid(b"parent1")],
        cid(b"genesis"),
        1234567890,
        ContentMetadata::new(),
    );
    node.add_parent(cid(b"parent2")).unwrap();
    node.add_parent(cid(b"parent3")).unwrap();
    node.add_parent(cid(b"parent4")).unwrap();
    assert_eq!(node.parents().len(), 4);
    assert_eq!(node.parents()[1], cid(b"parent2"));
    assert_eq!(node.parents()[2], cid(b"parent3"));
    assert_eq!(node.parents()[3], cid(b"parent4"));
    // a self-reference is refused
    let self_cid = node.content_id().unwrap();
    assert!(node.add_parent(self_cid).is_err());
}
