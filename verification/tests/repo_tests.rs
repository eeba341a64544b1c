use crsl::cid::ContentId;
use crsl::errors::CrdtError;
use crsl::operation::{Operation, OperationId, OperationKind, OperationType};
use crsl::repo::Repo;

fn op(genesis: &ContentId, ts: u64, kind: OperationType) -> Operation {
    Operation::new(OperationId::fresh(), genesis.clone(), kind, "test".to_string(), ts)
}

fn unknown_genesis(label: &[u8]) -> ContentId {
    ContentId::new(label).unwrap()
}

#[test]
fn test_create_operation() {
    let mut repo = Repo::new().unwrap();
    let g = repo
        .commit_operation(op(&unknown_genesis(b"seed"), 100, OperationType::Create("test content".to_string())))
        .unwrap();
    assert_eq!(repo.latest(&g), Some(g.clone()));
    assert_eq!(repo.get_state(&g), Some("test content".to_string()));
}

#[test]
fn test_update_operation() {
    let mut repo = Repo::new().unwrap();
    let g = repo
        .commit_operation(op(&unknown_genesis(b"seed"), 100, OperationType::Create("initial".to_string())))
        .unwrap();
    let u = repo
        .commit_operation(op(&g, 200, OperationType::Update("updated".to_string())))
        .unwrap();
    assert_eq!(repo.latest(&g), Some(u.clone()));
    assert_eq!(repo.get_state(&g), Some("updated".to_string()));
    let node = repo.dag.get_node(&u).unwrap();
    assert_eq!(node.parents(), &vec![g.clone()]);
}

#[test]
fn linear_updates_walk_the_chain() {
    // Create "A", update "B", update "C": the chain stays linear and the
    // reducer sees the last write.
    let mut repo = Repo::new().unwrap();
    let g = repo
        .commit_operation(op(&unknown_genesis(b"s1"), 100, OperationType::Create("A".to_string())))
        .unwrap();
    let u1 = repo
        .commit_operation(op(&g, 200, OperationType::Update("B".to_string())))
        .unwrap();
    let u2 = repo
        .commit_operation(op(&g, 300, OperationType::Update("C".to_string())))
        .unwrap();

    assert_eq!(repo.dag.get_node(&u1).unwrap().parents(), &vec![g.clone()]);
    assert_eq!(repo.dag.get_node(&u2).unwrap().parents(), &vec![u1.clone()]);
    assert_eq!(repo.latest(&g), Some(u2.clone()));
    assert_eq!(repo.get_state(&g), Some("C".to_string()));
    assert_eq!(repo.linear_history(&g).unwrap(), vec![g, u1, u2]);
}

#[test]
fn test_delete_operation() {
    // The delete node carries the last payload of the family.
    let mut repo = Repo::new().unwrap();
    let g = repo
        .commit_operation(op(&unknown_genesis(b"s2"), 100, OperationType::Create("X".to_string())))
        .unwrap();
    let u1 = repo
        .commit_operation(op(&g, 200, OperationType::Update("Y".to_string())))
        .unwrap();
    let d = repo.commit_operation(op(&g, 300, OperationType::Delete)).unwrap();

    assert_eq!(repo.latest(&g), Some(d.clone()));
    assert_eq!(repo.get_state(&g), None);
    let delete_node = repo.dag.get_node(&d).unwrap();
    assert_eq!(delete_node.payload(), "Y");
    assert_eq!(delete_node.parents(), &vec![u1]);
}

#[test]
fn test_delete_operation_without_existing_payload_fails() {
    // A genesis node exists in the graph, but the family's log holds no
    // payload to inherit: the delete is refused and nothing persists.
    let mut repo = Repo::new().unwrap();
    let g = repo
        .dag
        .add_genesis_node("dangling".to_string(), crsl::metadata::ContentMetadata::new(), 1)
        .unwrap();
    let ops_before = repo.state.ops.len();
    let nodes_before = repo.dag.nodes.len();
    match repo.commit_operation(op(&g, 1000, OperationType::Delete)) {
        Err(CrdtError::Internal(m)) => assert!(m.contains("content must exist")),
        other => panic!("unexpected result: {other:?}"),
    }
    assert_eq!(repo.state.ops.len(), ops_before, "operation history should remain empty on failure");
    assert_eq!(repo.dag.nodes.len(), nodes_before, "existing genesis node should remain after failed delete");
}

#[test]
fn test_update_operation_without_existing_head_fails() {
    let mut repo = Repo::new().unwrap();
    let orphan = unknown_genesis(b"update-no-head");
    match repo.commit_operation(op(&orphan, 100, OperationType::Update("orphaned".to_string()))) {
        Err(CrdtError::Internal(m)) => assert!(m.contains("No head available")),
        other => panic!("unexpected error: {other:?}"),
    }
    assert!(repo.state.ops.is_empty(), "update should not persist when no head exists");
}

#[test]
fn test_multiple_genesis_entries() {
    let mut repo = Repo::new().unwrap();
    let g1 = repo
        .commit_operation(op(&unknown_genesis(b"t1"), 100, OperationType::Create("entry1".to_string())))
        .unwrap();
    let g2 = repo
        .commit_operation(op(&unknown_genesis(b"t2"), 200, OperationType::Create("entry2".to_string())))
        .unwrap();
    assert_ne!(g1, g2);
    assert_eq!(repo.get_state(&g1), Some("entry1".to_string()));
    assert_eq!(repo.get_state(&g2), Some("entry2".to_string()));
    assert_eq!(repo.latest(&g1), Some(g1.clone()));
    assert_eq!(repo.latest(&g2), Some(g2.clone()));
}

#[test]
fn test_update_rejects_parent_from_other_genesis() {
    // A parent from a foreign family is refused, and nothing persists.
    let mut repo = Repo::new().unwrap();
    let ga = repo
        .commit_operation(op(&unknown_genesis(b"a"), 100, OperationType::Create("A".to_string())))
        .unwrap();
    let gb = repo
        .commit_operation(op(&unknown_genesis(b"b"), 200, OperationType::Create("B".to_string())))
        .unwrap();

    let ops_before = repo.state.ops.len();
    let nodes_before = repo.dag.nodes.len();
    let mut bad = op(&ga, 300, OperationType::Update("bad".to_string()));
    bad.parents = vec![gb];
    match repo.commit_operation(bad) {
        Err(CrdtError::Internal(m)) => assert!(m.contains("does not belong")),
        other => panic!("unexpected error: {other:?}"),
    }
    assert_eq!(repo.state.ops.len(), ops_before);
    assert_eq!(repo.dag.nodes.len(), nodes_before);
}

#[test]
fn test_update_with_explicit_parent_is_respected() {
    let mut repo = Repo::new().unwrap();
    let g = repo
        .commit_operation(op(&unknown_genesis(b"ex"), 100, OperationType::Create("root".to_string())))
        .unwrap();
    let c1 = repo
        .commit_operation(op(&g, 200, OperationType::Update("child-1".to_string())))
        .unwrap();

    let mut branch = op(&g, 300, OperationType::Update("branch-from-genesis".to_string()));
    branch.parents = vec![g.clone()];
    let b = repo.commit_operation(branch).unwrap();

    assert_eq!(repo.dag.get_node(&b).unwrap().parents(), &vec![g.clone()]);
    let heads = repo.dag.find_heads(&g);
    assert_eq!(heads.len(), 2);
    assert!(heads.contains(&c1));
    assert!(heads.contains(&b));
}

#[test]
fn test_manual_merge_operations_are_rejected() {
    let mut repo = Repo::new().unwrap();
    let g = repo
        .commit_operation(op(&unknown_genesis(b"m"), 100, OperationType::Create("base".to_string())))
        .unwrap();
    let ops_before = repo.state.ops.len();
    match repo.commit_operation(op(&g, 200, OperationType::Merge("should-fail".to_string()))) {
        Err(CrdtError::Internal(m)) => {
            assert!(m.contains("Merge operations cannot be manually committed"))
        }
        other => panic!("unexpected error: {other:?}"),
    }
    assert_eq!(repo.state.ops.len(), ops_before);
}

#[test]
fn test_auto_merge_creates_merge_operation() {
    // Two explicit branches, then an update with no parents: auto-merge
    // reconciles the heads first, and the update lands on the merge node.
    let mut repo = Repo::new().unwrap();
    let g = repo
        .commit_operation(op(&unknown_genesis(b"am"), 100, OperationType::Create("root".to_string())))
        .unwrap();
    let mut b1 = op(&g, 200, OperationType::Update("branch-1".to_string()));
    b1.parents = vec![g.clone()];
    let a = repo.commit_operation(b1).unwrap();
    let mut b2 = op(&g, 300, OperationType::Update("branch-2".to_string()));
    b2.parents = vec![g.clone()];
    let b = repo.commit_operation(b2).unwrap();
    assert_eq!(repo.dag.find_heads(&g).len(), 2);

    let u = repo
        .commit_operation(op(&g, 400, OperationType::Update("latest".to_string())))
        .unwrap();

    // the update's parent is the merge node, whose parents are the heads
    let u_node = repo.dag.get_node(&u).unwrap();
    assert_eq!(u_node.parents().len(), 1);
    let m = u_node.parents()[0].clone();
    let m_node = repo.dag.get_node(&m).unwrap();
    assert_eq!(m_node.parents().len(), 2);
    assert!(m_node.parents().contains(&a));
    assert!(m_node.parents().contains(&b));

    // the synthetic merge operation is in the family's log
    let ops = repo.state.get_operations_by_genesis(&g);
    assert!(ops
        .iter()
        .any(|o| o.is_type(OperationKind::Merge) && o.author == "auto-merge"));

    // exactly one head is left: the new update
    let heads = repo.dag.find_heads(&g);
    assert_eq!(heads, vec![u.clone()]);
    assert_eq!(repo.latest(&g), Some(u));

    // and no cycle anywhere
    assert_eq!(repo.dag.detect_cycle_cid(), false);
}

#[test]
fn test_import_operation_preserves_cid() {
    // Replica one creates content; replica two replays the create with
    // the original node timestamp and must end up with the same
    // identifier.
    let mut replica1 = Repo::new().unwrap();
    let g = replica1
        .commit_operation(op(&unknown_genesis(b"i1"), 100, OperationType::Create("test content".to_string())))
        .unwrap();
    let node_ts = replica1.dag.get_node(&g).unwrap().timestamp();

    let mut replica2 = Repo::new().unwrap();
    let mut import = op(&g, 100, OperationType::Create("test content".to_string()));
    import.node_timestamp = Some(node_ts);
    let got = replica2.commit_operation(import).unwrap();
    assert_eq!(got, g, "CIDs should be identical after import");
    assert_eq!(replica2.latest(&g), Some(g.clone()), "Should be able to get latest using original CID");
    assert_eq!(replica2.get_state(&g), Some("test content".to_string()));
}

#[test]
fn test_import_operation_update_preserves_cid() {
    let mut replica1 = Repo::new().unwrap();
    let g = replica1
        .commit_operation(op(&unknown_genesis(b"i2"), 100, OperationType::Create("initial".to_string())))
        .unwrap();
    let u = replica1
        .commit_operation(op(&g, 200, OperationType::Update("updated".to_string())))
        .unwrap();
    let u_node = replica1.dag.get_node(&u).unwrap();

    let mut replica2 = Repo::new().unwrap();
    let g_ts = replica1.dag.get_node(&g).unwrap().timestamp();
    let mut import_create = op(&g, 100, OperationType::Create("initial".to_string()));
    import_create.node_timestamp = Some(g_ts);
    replica2.commit_operation(import_create).unwrap();

    let mut import_update = op(&g, 200, OperationType::Update("updated".to_string()));
    import_update.node_timestamp = Some(u_node.timestamp());
    import_update.parents = u_node.parents().clone();
    let got = replica2.commit_operation(import_update).unwrap();
    assert_eq!(got, u, "Update CIDs should be identical after import");
}

#[test]
fn test_import_operation_rejects_cid_mismatch() {
    let mut repo = Repo::new().unwrap();
    let wrong = unknown_genesis(b"wrong-genesis");
    let mut import = op(&wrong, 100, OperationType::Create("test content".to_string()));
    import.node_timestamp = Some(12345);
    match repo.commit_operation(import) {
        Err(CrdtError::Internal(m)) => assert!(m.contains("CID mismatch")),
        other => panic!("Expected CID mismatch error, got: {other:?}"),
    }
    assert!(repo.state.ops.is_empty());
    assert!(repo.dag.nodes.is_empty());
}

#[test]
fn test_branching_history_returns_adjacency() {
    let mut repo = Repo::new().unwrap();
    let g = repo
        .commit_operation(op(&unknown_genesis(b"bh"), 100, OperationType::Create("root".to_string())))
        .unwrap();
    let mut b1 = op(&g, 2000, OperationType::Update("branch-a".to_string()));
    b1.parents = vec![g.clone()];
    let a = repo.commit_operation(b1).unwrap();
    let mut b2 = op(&g, 3000, OperationType::Update("branch-b".to_string()));
    b2.parents = vec![g.clone()];
    let b = repo.commit_operation(b2).unwrap();

    let adjacency = repo.branching_history(&g).unwrap();
    let genesis_children = adjacency
        .iter()
        .find(|(key, _)| key == &g)
        .map(|(_, kids)| kids.clone())
        .expect("genesis must appear in the adjacency");
    assert_eq!(genesis_children.len(), 2);
    assert!(genesis_children.contains(&a));
    assert!(genesis_children.contains(&b));
    // children are listed in ascending identifier order
    let mut sorted = genesis_children.clone();
    sorted.sort_by(|x, y| x.to_bytes().cmp(&y.to_bytes()));
    assert_eq!(genesis_children, sorted);
}

#[test]
fn test_linear_history_prefers_merge_path() {
    let mut repo = Repo::new().unwrap();
    let g = repo
        .commit_operation(op(&unknown_genesis(b"lh"), 100, OperationType::Create("root".to_string())))
        .unwrap();
    let mut b1 = op(&g, 2000, OperationType::Update("manual".to_string()));
    b1.parents = vec![g.clone()];
    repo.commit_operation(b1).unwrap();
    let mut b2 = op(&g, 3000, OperationType::Update("merged".to_string()));
    b2.parents = vec![g.clone()];
    repo.commit_operation(b2).unwrap();
    let u = repo
        .commit_operation(op(&g, 4000, OperationType::Update("latest".to_string())))
        .unwrap();

    let path = repo.linear_history(&g).unwrap();
    assert_eq!(path[0], g);
    let u_node = repo.dag.get_node(&u).unwrap();
    let merge_cid = u_node.parents()[0].clone();
    assert!(path.contains(&merge_cid), "branch or merge node missing from linear history");
    assert!(path.contains(&u));
}

#[test]
fn test_get_operations_with_index() {
    let mut repo = Repo::new().unwrap();
    let g = repo
        .commit_operation(op(&unknown_genesis(b"idx"), 100, OperationType::Create("one".to_string())))
        .unwrap();
    repo.commit_operation(op(&g, 300, OperationType::Update("three".to_string()))).unwrap();

    let indexed = repo.get_operations_with_index(&g).unwrap();
    assert_eq!(indexed.len(), 2);
    assert_eq!(indexed[0].0, 1);
    assert_eq!(indexed[1].0, 2);
    assert!(indexed[0].1.timestamp <= indexed[1].1.timestamp);
}

#[test]
fn attach_opens_an_existing_database() {
    let db = rusty_leveldb::DB::open("attached", rusty_leveldb::in_memory()).unwrap();
    let mut repo = Repo::attach(db).unwrap();
    let g = repo
        .commit_operation(op(&unknown_genesis(b"at"), 100, OperationType::Create("kept".to_string())))
        .unwrap();
    assert_eq!(repo.get_state(&g), Some("kept".to_string()));
}

#[test]
fn unknown_policy_types_are_refused() {
    // A family tagged with an unregistered policy cannot auto-merge.
    let mut repo = Repo::new().unwrap();
    // build the family by hand so the genesis carries a custom tag
    let meta = crsl::metadata::ContentMetadata::with_policy("custom");
    let g = repo.dag.add_genesis_node("root".to_string(), meta.clone(), 1).unwrap();
    repo.dag
        .add_child_node("a".to_string(), vec![g.clone()], g.clone(), 2, meta.clone())
        .unwrap();
    repo.dag
        .add_child_node("b".to_string(), vec![g.clone()], g.clone(), 3, meta)
        .unwrap();
    match repo.commit_operation(op(&g, 400, OperationType::Update("x".to_string()))) {
        Err(CrdtError::Internal(m)) => assert!(m.contains("Unknown policy type")),
        other => panic!("unexpected result: {other:?}"),
    }
}
