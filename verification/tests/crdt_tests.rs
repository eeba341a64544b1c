use crsl::cid::ContentId;
use crsl::crdt_state::CrdtState;
use crsl::errors::CrdtError;
use crsl::operation::{Operation, OperationId, OperationType};
use crsl::policy::{LwwMergePolicy, MergePolicy, ResolveInput};
use crsl::reducer::LwwReducer;

fn cid(label: &[u8]) -> ContentId {
    ContentId::new(label).unwrap()
}

fn make_op(genesis: &ContentId, ts: u64, kind: OperationType) -> Operation {
    Operation::new(OperationId::fresh(), genesis.clone(), kind, "tester".to_string(), ts)
}

fn make_op_with_ulid(genesis: &ContentId, ts: u64, kind: OperationType, ulid_str: &str) -> Operation {
    let id = OperationId::from_text(ulid_str).unwrap();
    Operation::new(id, genesis.clone(), kind, "test".to_string(), ts)
}

#[test]
fn test_create_state() {
    let mut state = CrdtState::new();
    let g = cid(b"1");
    state.apply(make_op(&g, 100, OperationType::Create("A".to_string()))).unwrap();
    assert_eq!(state.get_state(&g), Some("A".to_string()));
}

#[test]
fn test_update_state() {
    let mut state = CrdtState::new();
    let g = cid(b"1");
    state.apply(make_op(&g, 100, OperationType::Create("A".to_string()))).unwrap();
    state.apply(make_op(&g, 200, OperationType::Update("B".to_string()))).unwrap();
    assert_eq!(state.get_state(&g), Some("B".to_string()));
}

#[test]
fn test_delete_state() {
    let mut state = CrdtState::new();
    let g = cid(b"1");
    state.apply(make_op(&g, 100, OperationType::Create("A".to_string()))).unwrap();
    state.apply(make_op(&g, 200, OperationType::Update("B".to_string()))).unwrap();
    state.apply(make_op(&g, 300, OperationType::Delete)).unwrap();
    assert_eq!(state.get_state(&g), None);
}

#[test]
fn test_validate_operation() {
    let mut state = CrdtState::new();
    let g = cid(b"1");
    state.apply(make_op(&g, 100, OperationType::Create("A".to_string()))).unwrap();

    let update = make_op(&g, 200, OperationType::Update("B".to_string()));
    assert!(state.validate_operation(&update).unwrap());
}

#[test]
fn test_apply_with_validation() {
    let mut state = CrdtState::new();
    let g = cid(b"1");
    state.apply(make_op(&g, 100, OperationType::Create("A".to_string()))).unwrap();

    state.apply_with_validation(make_op(&g, 200, OperationType::Update("B".to_string()))).unwrap();
    assert_eq!(state.get_state(&g), Some("B".to_string()));

    let orphan = make_op(&cid(b"unknown"), 300, OperationType::Update("C".to_string()));
    assert!(matches!(
        state.apply_with_validation(orphan),
        Err(CrdtError::Validation(_))
    ));
}

#[test]
fn test_same_target_different_genesis_collision() {
    let mut state = CrdtState::new();
    let g = cid(b"X");
    state.apply(make_op(&g, 100, OperationType::Create("A".to_string()))).unwrap();

    let fake_genesis = cid(b"DIFFERENT");
    state.apply(make_op(&fake_genesis, 200, OperationType::Update("B".to_string()))).unwrap();

    assert_eq!(state.get_state(&g), Some("A".to_string()));
}

#[test]
fn test_delete_one_genesis_preserves_other_series() {
    let mut state = CrdtState::new();
    let primary = cid(b"X");
    let alt = cid(b"ALT");

    state.apply(make_op(&primary, 100, OperationType::Create("A".to_string()))).unwrap();
    state.apply(make_op(&alt, 150, OperationType::Create("B".to_string()))).unwrap();
    state.apply(make_op(&alt, 300, OperationType::Update("C".to_string()))).unwrap();
    state.apply(make_op(&primary, 400, OperationType::Delete)).unwrap();

    assert_eq!(state.get_state(&primary), None);
    assert_eq!(state.get_state(&alt), Some("C".to_string()));

    let operations = state.get_operations_by_genesis(&alt);
    assert_eq!(operations.len(), 2);
    assert!(operations.iter().any(|op| op.kind == OperationType::Create("B".to_string())));
    assert!(operations.iter().any(|op| op.kind == OperationType::Update("C".to_string())));
}

#[test]
fn lww_reducer_picks_latest_update() {
    let g = cid(b"1");
    let ops = vec![
        make_op(&g, 100, OperationType::Create("A".to_string())),
        make_op(&g, 200, OperationType::Update("B".to_string())),
        make_op(&g, 150, OperationType::Update("C".to_string())),
    ];
    assert_eq!(LwwReducer::reduce(&ops), Some("B".to_string()));
}

#[test]
fn lww_reducer_handles_delete() {
    let g = cid(b"1");
    let ops = vec![
        make_op(&g, 100, OperationType::Create("A".to_string())),
        make_op(&g, 200, OperationType::Delete),
    ];
    assert_eq!(LwwReducer::reduce(&ops), None);
}

#[test]
fn lww_reducer_empty_ops() {
    let ops: Vec<Operation> = vec![];
    assert_eq!(LwwReducer::reduce(&ops), None);
}

#[test]
fn lww_reducer_same_timestamp() {
    let g = cid(b"1");
    let ops = vec![
        make_op_with_ulid(&g, 100, OperationType::Create("A".to_string()), "01GMTWF61FS176A96AKERBFNNX"),
        make_op_with_ulid(&g, 100, OperationType::Update("B".to_string()), "01GMTWF7ANPDQBCMWTKGSQG4QD"),
        make_op_with_ulid(&g, 100, OperationType::Update("C".to_string()), "01GMTWF9TZQ27MEKTAR4VWZCCT"),
    ];
    assert_eq!(LwwReducer::reduce(&ops), Some("C".to_string()));
}

#[test]
fn selects_highest_timestamp() {
    let policy = LwwMergePolicy;
    let inputs = vec![
        ResolveInput::new(cid(b"a"), "older".to_string(), 10),
        ResolveInput::new(cid(b"b"), "newer".to_string(), 20),
    ];
    assert_eq!(policy.resolve(&inputs), "newer");
}

#[test]
fn ties_choose_last_entry() {
    let policy = LwwMergePolicy;
    let inputs = vec![
        ResolveInput::new(cid(b"a"), "first".to_string(), 42),
        ResolveInput::new(cid(b"b"), "second".to_string(), 42),
    ];
    assert_eq!(policy.resolve(&inputs), "second");
}

#[test]
fn selects_highest_timestamp_among_three() {
    let policy = LwwMergePolicy;
    let inputs = vec![
        ResolveInput::new(cid(b"a"), "payload-a".to_string(), 5),
        ResolveInput::new(cid(b"b"), "payload-b".to_string(), 10),
        ResolveInput::new(cid(b"c"), "payload-c".to_string(), 8),
    ];
    assert_eq!(policy.resolve(&inputs), "payload-b");
}
