use reactive_core::reconcile::{
    apply_edits, insert_count, reconcile_keyed, EditOp, KeyedValue, ReconcileError, Row,
};

fn row(key: u64, handle: u64, value: i64) -> Row {
    Row { key, handle, value }
}

fn kv(key: u64, value: i64) -> KeyedValue {
    KeyedValue { key, value }
}

#[test]
fn reconcile_self_is_empty() {
    let prev = vec![row(1, 10, 1), row(2, 20, 2), row(3, 30, 15)];
    let next = vec![kv(1, 1), kv(2, 2), kv(3, 15)];
    let script = reconcile_keyed(&prev, &next).unwrap();
    assert_eq!(script.ops, Vec::<EditOp>::new());
}

#[test]
fn swap_is_two_moves_and_keeps_handles() {
    // keys 1 and 2 stand for "a" and "b"
    let prev = vec![row(1, 10, 1), row(2, 20, 2)];
    let next = vec![kv(2, 2), kv(1, 1)];
    let script = reconcile_keyed(&prev, &next).unwrap();
    assert_eq!(
        script.ops,
        vec![
            EditOp::Move { key: 2, from: 1, to: 0 },
            EditOp::Move { key: 1, from: 0, to: 1 },
        ]
    );
    for op in &script.ops {
        assert!(!matches!(op, EditOp::Insert { .. }));
        assert!(!matches!(op, EditOp::Remove { .. }));
    }
    let out = apply_edits(&prev, &next, 100);
    // the row-local handle created for key 1 is the same instance
    assert_eq!(out[1], row(1, 10, 1));
    assert_eq!(out[0], row(2, 20, 2));
}

#[test]
fn insert_remove_update_mix() {
    let prev = vec![row(1, 10, 5), row(2, 20, 6)];
    let next = vec![kv(2, 7), kv(9, 1)];
    let script = reconcile_keyed(&prev, &next).unwrap();
    assert_eq!(
        script.ops,
        vec![
            EditOp::Move { key: 2, from: 1, to: 0 },
            EditOp::Update { key: 2, value: 7 },
            EditOp::Insert { key: 9, value: 1, pos: 1 },
            EditOp::Remove { key: 1 },
        ]
    );
    assert_eq!(insert_count(&prev, &next), 1);
    let out = apply_edits(&prev, &next, 100);
    assert_eq!(out, vec![row(2, 20, 7), row(9, 100, 1)]);
}

#[test]
fn fresh_handles_count_up_from_base() {
    let prev: Vec<Row> = Vec::new();
    let next = vec![kv(4, 40), kv(5, 50), kv(6, 60)];
    assert_eq!(insert_count(&prev, &next), 3);
    let out = apply_edits(&prev, &next, 7);
    assert_eq!(out, vec![row(4, 7, 40), row(5, 8, 50), row(6, 9, 60)]);
}

#[test]
fn duplicate_key_is_refused() {
    let prev = vec![row(1, 10, 1)];
    let next = vec![kv(3, 0), kv(3, 1)];
    assert_eq!(
        reconcile_keyed(&prev, &next),
        Err(ReconcileError::DuplicateKey { key: 3 })
    );
}

#[test]
fn empty_sequences_reconcile_to_nothing() {
    let prev: Vec<Row> = Vec::new();
    let next: Vec<KeyedValue> = Vec::new();
    let script = reconcile_keyed(&prev, &next).unwrap();
    assert!(script.ops.is_empty());
}

#[test]
fn value_change_in_place_is_one_update() {
    let prev = vec![row(1, 10, 1), row(2, 20, 2)];
    let next = vec![kv(1, 1), kv(2, 99)];
    let script = reconcile_keyed(&prev, &next).unwrap();
    assert_eq!(script.ops, vec![EditOp::Update { key: 2, value: 99 }]);
}
