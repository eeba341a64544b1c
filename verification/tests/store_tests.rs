use crsl::errors::BatchError;
use crsl::store::Store;

#[test]
fn begin_batch_prevents_nested_batches() {
    let mut shared = Store::open_memory().expect("open shared db");

    shared.begin_batch().expect("begin first batch");
    match shared.begin_batch() {
        Err(BatchError::AlreadyActive) => {}
        Ok(_) => panic!("expected AlreadyActive error, got Ok"),
        Err(err) => panic!("unexpected batch error: {err:?}"),
    }
    shared.abort_batch();

    shared.begin_batch().expect("batch should be available after abort");
    shared.commit_batch().expect("commit empty batch");
}

#[test]
fn commit_batch_persists_operations() {
    let mut shared = Store::open_memory().expect("open shared db");

    shared.begin_batch().expect("begin batch");
    let key = b"test-key".to_vec();
    let value = b"test-value".to_vec();
    shared.stage_put(&key, &value);
    shared.commit_batch().expect("commit batch");

    let entries = shared.snapshot().expect("snapshot after commit");
    assert!(entries.iter().any(|(k, v)| k == &key && v == &value), "value should exist after commit");
}

#[test]
fn dropping_guard_discards_pending_operations() {
    let mut shared = Store::open_memory().expect("open shared db");
    let key = b"discard-key".to_vec();
    let value = b"discard-value".to_vec();

    shared.begin_batch().expect("begin batch");
    shared.stage_put(&key, &value);
    shared.abort_batch();

    let entries = shared.snapshot().expect("snapshot after abort");
    assert!(
        !entries.iter().any(|(k, _)| k == &key),
        "value should not be persisted when the batch is discarded without commit"
    );
}
