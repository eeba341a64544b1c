use crsl::cid::ContentId;
use crsl::operation::{Operation, OperationId, OperationKind, OperationType};
use crsl::timestamp::MonotonicClock;

fn cid(label: &[u8]) -> ContentId {
    ContentId::new(label).unwrap()
}

fn fresh_op(genesis: ContentId, kind: OperationType, author: &str) -> Operation {
    let mut clock = MonotonicClock::new();
    Operation::new(OperationId::fresh(), genesis, kind, author.to_string(), clock.next())
}

#[test]
fn test_operation_new_create() {
    let genesis = cid(b"test");
    let payload = "test".to_string();
    let author = "Alice";

    let op = fresh_op(genesis.clone(), OperationType::Create(payload.clone()), author);

    assert_eq!(op.id.bytes.len(), 16);
    assert_eq!(op.genesis, genesis);
    assert_eq!(op.kind, OperationType::Create(payload.clone()));
    assert!(op.timestamp > 0);
    assert_eq!(op.author, author);
    assert_eq!(op.payload(), Some(&payload));
    assert!(op.is_type(OperationKind::Create));
    assert!(!op.is_type(OperationKind::Update));
    assert!(!op.is_type(OperationKind::Delete));
    assert!(!op.is_type(OperationKind::Merge));
}

#[test]
fn test_operation_update() {
    let genesis = cid(b"genesis");
    let payload = "updated".to_string();

    let op = fresh_op(genesis.clone(), OperationType::Update(payload.clone()), "Alice");

    assert_eq!(op.id.bytes.len(), 16);
    assert_eq!(op.kind, OperationType::Update(payload.clone()));
    assert!(op.timestamp > 0);
    assert_eq!(op.payload(), Some(&payload));
    assert!(op.is_type(OperationKind::Update));
    assert!(!op.is_type(OperationKind::Create));
    assert!(!op.is_type(OperationKind::Delete));
    assert!(!op.is_type(OperationKind::Merge));
}

#[test]
fn test_operation_delete() {
    let genesis = cid(b"genesis");
    let author = "Alice";

    let op = fresh_op(genesis.clone(), OperationType::Delete, author);

    assert_eq!(op.id.bytes.len(), 16);
    assert_eq!(op.kind, OperationType::Delete);
    assert!(op.timestamp > 0);
    assert_eq!(op.author, author);
    assert_eq!(op.payload(), None);
    assert!(!op.is_type(OperationKind::Create));
    assert!(op.is_type(OperationKind::Delete));
}

#[test]
fn test_operation_merge() {
    let genesis = cid(b"merge-genesis");
    let payload = "merged".to_string();
    let author = "auto";

    let op = fresh_op(genesis.clone(), OperationType::Merge(payload.clone()), author);

    assert_eq!(op.id.bytes.len(), 16);
    assert_eq!(op.genesis, genesis);
    assert_eq!(op.kind, OperationType::Merge(payload.clone()));
    assert!(op.timestamp > 0);
    assert_eq!(op.author, author);
    assert_eq!(op.payload(), Some(&payload));
    assert!(op.is_type(OperationKind::Merge));
}

#[test]
fn operation_roundtrip_covers_every_kind() {
    let kinds = vec![
        OperationType::Create("c".to_string()),
        OperationType::Update("π update 🌍".to_string()),
        OperationType::Delete,
        OperationType::Merge(String::new()),
    ];
    for kind in kinds {
        let mut op = fresh_op(cid(b"family"), kind, "tester");
        op.parents = vec![cid(b"p1"), cid(b"p2")];
        op.node_timestamp = Some(42);
        let bytes = op.to_bytes();
        let decoded = Operation::from_bytes(&bytes).unwrap();
        assert_eq!(decoded, op);
        assert_eq!(decoded.to_bytes(), bytes);
    }
}

#[test]
fn operation_ids_parse_from_canonical_text() {
    let id = OperationId::from_text("01GMTWF61FS176A96AKERBFNNX").unwrap();
    assert_eq!(id.bytes.len(), 16);
    assert!(OperationId::from_text("not a ulid").is_none());
}
