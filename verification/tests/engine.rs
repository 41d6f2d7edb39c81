use sync_core::engine::SyncEngine;
use sync_core::hlc::Hlc;
use sync_core::operation::{NotePayload, OpType, Operation};
use sync_core::outbox::{OutboxEvent, OutboxState};
use sync_core::projection::NoteProjection;

fn edit(op_id: &str, note: &str, hlc: Hlc, title: &str) -> Operation {
    Operation {
        op_id: op_id.to_string(),
        device_id: "device-a".to_string(),
        hlc,
        entity_id: note.to_string(),
        entity_type: "note".to_string(),
        op_type: OpType::Upsert,
        payload: NotePayload { title: title.to_string(), body: Some(title.as_bytes().to_vec()) },
        schema_v: 1,
    }
}

fn at(physical_time: u64, logical_counter: u64) -> Hlc {
    Hlc { physical_time, logical_counter }
}

fn snapshot(row: &NoteProjection) -> (String, String, Option<Vec<u8>>, u64, u64, bool, Hlc) {
    (
        row.note_id.clone(),
        row.title.clone(),
        row.body.clone(),
        row.created_at,
        row.updated_at,
        row.deleted,
        row.hlc,
    )
}

#[test]
fn fresh_engine_is_empty() {
    let engine = SyncEngine::new();
    assert_eq!(engine.clock().latest(), at(0, 0));
    assert_eq!(engine.operations().len(), 0);
    assert_eq!(engine.outbox().len(), 0);
    assert!(!engine.applied().contains(&"op-1".to_string()));
    assert!(engine.notes().get(&"n1".to_string()).is_none());
}

#[test]
fn local_write_appends_and_stages_together() {
    let mut engine = SyncEngine::new();
    let hlc = engine.tick_at(1000);
    assert_eq!(hlc, at(1000, 0));
    assert!(engine.record_local(edit("op-1", "n1", hlc, "A")));
    assert!(engine.operations().contains(&"op-1".to_string()));
    let entry = engine.outbox().get(&"op-1".to_string()).unwrap();
    assert_eq!(entry.state, OutboxState::Pending);
    assert_eq!(entry.attempts, 0);
    assert_eq!(entry.next_retry_at, None);
    assert!(engine.notes().get(&"n1".to_string()).is_none());
    assert!(!engine.applied().contains(&"op-1".to_string()));
}

#[test]
fn repeated_local_write_changes_nothing() {
    let mut engine = SyncEngine::new();
    let hlc = engine.tick_at(1000);
    assert!(engine.record_local(edit("op-1", "n1", hlc, "A")));
    assert!(engine.report_delivery(&"op-1".to_string(), OutboxEvent::BeginSend { now: 1000 }));
    assert!(!engine.record_local(edit("op-1", "n1", hlc, "A")));
    assert_eq!(engine.operations().len(), 1);
    assert_eq!(engine.outbox().len(), 1);
    assert_eq!(engine.outbox().get(&"op-1".to_string()).unwrap().state, OutboxState::Sending);
}

#[test]
fn ingest_folds_once() {
    let mut engine = SyncEngine::new();
    assert!(engine.ingest(edit("op-1", "n1", at(100, 0), "A")));
    let once = snapshot(engine.notes().get(&"n1".to_string()).unwrap());
    assert!(!engine.ingest(edit("op-1", "n1", at(100, 0), "A")));
    let twice = snapshot(engine.notes().get(&"n1".to_string()).unwrap());
    assert_eq!(once, twice);
    assert_eq!(
        once,
        ("n1".to_string(), "A".to_string(), Some(b"A".to_vec()), 100, 100, false, at(100, 0))
    );
    assert_eq!(engine.operations().len(), 1);
    assert!(engine.applied().contains(&"op-1".to_string()));
    assert_eq!(engine.outbox().len(), 0);
}

#[test]
fn ingest_of_a_known_identifier_ignores_new_content() {
    let mut engine = SyncEngine::new();
    engine.ingest(edit("op-1", "n1", at(100, 0), "A"));
    assert!(!engine.ingest(edit("op-1", "n1", at(900, 0), "Z")));
    assert_eq!(engine.notes().get(&"n1".to_string()).unwrap().title, "A");
    assert_eq!(engine.operations().len(), 1);
}

#[test]
fn local_operation_is_folded_through_the_guarded_path() {
    let mut engine = SyncEngine::new();
    let hlc = engine.tick_at(1000);
    let op = edit("op-1", "n1", hlc, "A");
    assert!(engine.record_local(op.duplicate()));
    assert!(engine.ingest(op));
    assert_eq!(engine.operations().len(), 1);
    assert_eq!(engine.notes().get(&"n1".to_string()).unwrap().title, "A");
    assert!(engine.applied().contains(&"op-1".to_string()));
    assert_eq!(engine.outbox().len(), 1);
}

#[test]
fn receive_merges_the_clock_and_folds() {
    let mut engine = SyncEngine::new();
    engine.tick_at(1000);
    engine.tick_at(1000);
    let result = engine.receive_at(edit("op-r", "n1", at(1000, 5), "remote"), 1000);
    assert_eq!(result, Ok(true));
    assert_eq!(engine.clock().latest(), at(1000, 6));
    assert_eq!(engine.notes().get(&"n1".to_string()).unwrap().title, "remote");
    assert!(engine.operations().contains(&"op-r".to_string()));
    assert!(engine.applied().contains(&"op-r".to_string()));
    assert_eq!(engine.outbox().len(), 0);
    let next = engine.tick_at(1000);
    assert!(at(1000, 5) < next);
}

#[test]
fn receive_rejects_drift_and_changes_nothing() {
    let mut engine = SyncEngine::new();
    engine.tick_at(1000);
    let result = engine.receive_at(edit("op-r", "n1", at(61_001, 0), "remote"), 1000);
    assert_eq!(result, Err("remote clock too far ahead".to_string()));
    assert_eq!(engine.clock().latest(), at(1000, 0));
    assert_eq!(engine.operations().len(), 0);
    assert!(!engine.applied().contains(&"op-r".to_string()));
    assert!(engine.notes().get(&"n1".to_string()).is_none());
}

#[test]
fn redelivery_merges_the_clock_but_folds_nothing() {
    let mut engine = SyncEngine::new();
    assert_eq!(engine.receive_at(edit("op-r", "n1", at(500, 0), "remote"), 400), Ok(true));
    let once = snapshot(engine.notes().get(&"n1".to_string()).unwrap());
    assert_eq!(engine.receive_at(edit("op-r", "n1", at(500, 0), "remote"), 400), Ok(false));
    let twice = snapshot(engine.notes().get(&"n1".to_string()).unwrap());
    assert_eq!(once, twice);
    assert_eq!(engine.operations().len(), 1);
    assert_eq!(engine.clock().latest(), at(500, 2));
}

#[test]
fn receive_with_the_wall_clock() {
    let mut engine = SyncEngine::new();
    let local = engine.tick();
    assert_eq!(engine.receive(edit("op-r", "n1", at(1000, 5), "remote")), Ok(true));
    assert!(local < engine.clock().latest());
    assert_eq!(
        engine.receive(edit("op-far", "n1", at(u64::MAX, 0), "far")),
        Err("remote clock too far ahead".to_string())
    );
    assert!(!engine.operations().contains(&"op-far".to_string()));
    assert_eq!(engine.notes().get(&"n1".to_string()).unwrap().title, "remote");
}

#[test]
fn two_engines_converge_whatever_the_delivery_order() {
    let ops = || {
        vec![
            edit("op-1", "n1", at(100, 0), "A"),
            edit("op-2", "n1", at(100, 1), "B"),
            edit("op-3", "n2", at(90, 0), "other"),
        ]
    };
    let mut one = SyncEngine::new();
    for op in ops() {
        one.ingest(op);
    }
    let mut other = SyncEngine::new();
    for op in ops().into_iter().rev() {
        other.ingest(op);
    }
    for note in ["n1", "n2"] {
        assert_eq!(
            snapshot(one.notes().get(&note.to_string()).unwrap()),
            snapshot(other.notes().get(&note.to_string()).unwrap())
        );
    }
    assert_eq!(one.notes().get(&"n1".to_string()).unwrap().title, "B");
}

#[test]
fn rebuild_gives_the_view_that_incremental_application_gave() {
    let mut engine = SyncEngine::new();
    engine.ingest(edit("op-2", "n1", at(100, 1), "B"));
    engine.ingest(edit("op-3", "n2", at(90, 0), "other"));
    engine.ingest(edit("op-1", "n1", at(100, 0), "A"));
    let n1 = snapshot(engine.notes().get(&"n1".to_string()).unwrap());
    let n2 = snapshot(engine.notes().get(&"n2".to_string()).unwrap());
    engine.rebuild();
    assert_eq!(snapshot(engine.notes().get(&"n1".to_string()).unwrap()), n1);
    assert_eq!(snapshot(engine.notes().get(&"n2".to_string()).unwrap()), n2);
    assert_eq!(engine.operations().len(), 3);
}

#[test]
fn rebuild_folds_stored_operations_and_marks_them_applied() {
    let mut engine = SyncEngine::new();
    let hlc = engine.tick_at(1000);
    engine.record_local(edit("op-1", "n1", hlc, "A"));
    assert!(engine.notes().get(&"n1".to_string()).is_none());
    engine.rebuild();
    assert_eq!(engine.notes().get(&"n1".to_string()).unwrap().title, "A");
    assert!(engine.applied().contains(&"op-1".to_string()));
    assert!(!engine.ingest(edit("op-1", "n1", hlc, "A")));
    assert_eq!(engine.outbox().len(), 1);
    assert_eq!(engine.clock().latest(), at(1000, 0));
}

#[test]
fn delivery_reports_move_only_the_outbox() {
    let mut engine = SyncEngine::new();
    let hlc = engine.tick_at(1000);
    engine.record_local(edit("op-1", "n1", hlc, "A"));
    let op_id = "op-1".to_string();
    assert_eq!(engine.outbox().eligible(1000), vec!["op-1"]);
    assert!(engine.report_delivery(&op_id, OutboxEvent::BeginSend { now: 1000 }));
    assert!(engine.report_delivery(&op_id, OutboxEvent::Failed { next_retry_at: 2000 }));
    assert!(engine.outbox().eligible(1999).is_empty());
    assert!(engine.report_delivery(&op_id, OutboxEvent::BeginSend { now: 2000 }));
    assert!(engine.report_delivery(&op_id, OutboxEvent::Sent));
    assert!(!engine.report_delivery(&op_id, OutboxEvent::Sent));
    assert_eq!(engine.outbox().get(&op_id).unwrap().attempts, 1);
    assert_eq!(engine.purge_sent(), 1);
    assert_eq!(engine.outbox().len(), 0);
    assert_eq!(engine.operations().len(), 1);
    assert_eq!(engine.clock().latest(), at(1000, 0));
}
