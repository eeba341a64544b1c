use crsl::cid::ContentId;
use crsl::dag::DagGraph;
use crsl::errors::CrdtError;
use crsl::metadata::ContentMetadata;
use crsl::policy::LwwMergePolicy;
use crsl::resolver::ConflictResolver;

fn cid(label: &[u8]) -> ContentId {
    ContentId::new(label).unwrap()
}

#[test]
fn create_merge_node_merges_heads() {
    let mut dag = DagGraph::new();
    let meta = ContentMetadata::with_policy("custom");
    let g = dag.add_genesis_node("genesis".to_string(), meta.clone(), 1).unwrap();
    let a = dag
        .add_child_node("payload-a".to_string(), vec![g.clone()], g.clone(), 10, meta.clone())
        .unwrap();
    let b = dag
        .add_child_node("payload-b".to_string(), vec![g.clone()], g.clone(), 20, meta.clone())
        .unwrap();

    let resolver = ConflictResolver::new();
    let heads = vec![a.clone(), b.clone()];
    let merged = resolver
        .create_merge_node(&heads, &dag, &g, 100, &LwwMergePolicy)
        .unwrap();

    assert_eq!(merged.payload(), "payload-b");
    assert_eq!(merged.parents(), &heads);
    assert_eq!(merged.timestamp(), 100);
    assert_eq!(merged.genesis.as_ref().unwrap(), &g);
    assert_eq!(merged.metadata(), &meta);
}

#[test]
fn create_merge_node_requires_non_empty_heads() {
    let mut dag = DagGraph::new();
    let _g = dag
        .add_genesis_node("genesis".to_string(), ContentMetadata::new(), 100)
        .unwrap();
    let resolver = ConflictResolver::new();
    let heads: Vec<ContentId> = vec![];
    match resolver.create_merge_node(&heads, &dag, &cid(b"genesis"), 100, &LwwMergePolicy) {
        Err(CrdtError::Internal(m)) => assert!(m.contains("requires at least one head")),
        other => panic!("unexpected result: {other:?}"),
    }
}

#[test]
fn create_merge_node_fails_when_head_missing() {
    let mut dag = DagGraph::new();
    let g = dag
        .add_genesis_node("genesis".to_string(), ContentMetadata::new(), 100)
        .unwrap();
    let resolver = ConflictResolver::new();
    let heads = vec![cid(b"missing-head")];
    match resolver.create_merge_node(&heads, &dag, &g, 100, &LwwMergePolicy) {
        Err(CrdtError::Internal(m)) => assert!(m.contains("Head node not found")),
        other => panic!("unexpected result: {other:?}"),
    }
}

#[test]
fn policy_tags_resolve_to_names() {
    assert_eq!(ContentMetadata::new().policy_type(), "lww");
    assert_eq!(ContentMetadata::with_policy("lww").policy_type(), "lww");
    assert_eq!(ContentMetadata::with_policy("mine").policy_type(), "mine");
    assert_eq!(ContentMetadata::default(), ContentMetadata::new());
}

#[test]
fn metadata_equality_follows_the_tag() {
    assert_eq!(ContentMetadata::with_policy("lww"), ContentMetadata::with_policy("lww"));
    assert_ne!(ContentMetadata::with_policy("a"), ContentMetadata::with_policy("b"));
    assert_ne!(ContentMetadata::new(), ContentMetadata::with_policy("a"));
}
