use sync_core::outbox::{Outbox, OutboxEntry, OutboxEvent, OutboxState};

fn id(text: &str) -> String {
    text.to_string()
}

fn entry_fields(outbox: &Outbox, op_id: &str) -> (OutboxState, u64, Option<u64>) {
    let entry = outbox.get(&id(op_id)).unwrap();
    (entry.state, entry.attempts, entry.next_retry_at)
}

#[test]
fn staged_entry_is_pending_without_attempts() {
    let mut outbox = Outbox::new();
    assert_eq!(outbox.len(), 0);
    assert!(outbox.stage(id("op-1")));
    assert_eq!(outbox.len(), 1);
    let entry = outbox.get(&id("op-1")).unwrap();
    assert_eq!(entry.op_id, "op-1");
    assert_eq!(entry.state, OutboxState::Pending);
    assert_eq!(entry.attempts, 0);
    assert_eq!(entry.next_retry_at, None);
    assert!(outbox.get(&id("op-2")).is_none());
}

#[test]
fn staging_twice_keeps_the_entry() {
    let mut outbox = Outbox::new();
    assert!(outbox.stage(id("op-1")));
    assert!(outbox.begin_send(&id("op-1"), 10));
    assert!(!outbox.stage(id("op-1")));
    assert_eq!(outbox.len(), 1);
    assert_eq!(entry_fields(&outbox, "op-1"), (OutboxState::Sending, 0, None));
}

#[test]
fn pending_to_sending_to_sent() {
    let mut outbox = Outbox::new();
    outbox.stage(id("op-1"));
    assert!(outbox.begin_send(&id("op-1"), 10));
    assert_eq!(entry_fields(&outbox, "op-1"), (OutboxState::Sending, 0, None));
    assert!(outbox.mark_sent(&id("op-1")));
    assert_eq!(entry_fields(&outbox, "op-1"), (OutboxState::Sent, 0, None));
}

#[test]
fn failure_counts_an_attempt_and_sets_the_retry_time() {
    let mut outbox = Outbox::new();
    outbox.stage(id("op-1"));
    outbox.begin_send(&id("op-1"), 10);
    assert!(outbox.mark_failed(&id("op-1"), 500));
    assert_eq!(entry_fields(&outbox, "op-1"), (OutboxState::Failed, 1, Some(500)));
    assert!(!outbox.begin_send(&id("op-1"), 499));
    assert_eq!(entry_fields(&outbox, "op-1"), (OutboxState::Failed, 1, Some(500)));
    assert!(outbox.begin_send(&id("op-1"), 500));
    assert_eq!(entry_fields(&outbox, "op-1"), (OutboxState::Sending, 1, Some(500)));
    assert!(outbox.mark_failed(&id("op-1"), 900));
    assert_eq!(entry_fields(&outbox, "op-1"), (OutboxState::Failed, 2, Some(900)));
    assert!(outbox.begin_send(&id("op-1"), 1000));
    assert!(outbox.mark_sent(&id("op-1")));
    assert_eq!(entry_fields(&outbox, "op-1"), (OutboxState::Sent, 2, Some(900)));
}

#[test]
fn events_out_of_turn_change_nothing() {
    let mut outbox = Outbox::new();
    outbox.stage(id("op-1"));
    assert!(!outbox.mark_sent(&id("op-1")));
    assert!(!outbox.mark_failed(&id("op-1"), 5));
    assert_eq!(entry_fields(&outbox, "op-1"), (OutboxState::Pending, 0, None));
    outbox.begin_send(&id("op-1"), 1);
    assert!(!outbox.begin_send(&id("op-1"), 2));
    outbox.mark_sent(&id("op-1"));
    assert!(!outbox.begin_send(&id("op-1"), 3));
    assert!(!outbox.mark_sent(&id("op-1")));
    assert!(!outbox.mark_failed(&id("op-1"), 5));
    assert_eq!(entry_fields(&outbox, "op-1"), (OutboxState::Sent, 0, None));
}

#[test]
fn events_for_an_unknown_operation_change_nothing() {
    let mut outbox = Outbox::new();
    outbox.stage(id("op-1"));
    assert!(!outbox.begin_send(&id("op-9"), 1));
    assert!(!outbox.mark_sent(&id("op-9")));
    assert!(!outbox.mark_failed(&id("op-9"), 1));
    assert!(!outbox.record(&id("op-9"), OutboxEvent::Sent));
    assert_eq!(outbox.len(), 1);
    assert_eq!(entry_fields(&outbox, "op-1"), (OutboxState::Pending, 0, None));
}

#[test]
fn eligible_lists_pending_and_due_failures_in_staging_order() {
    let mut outbox = Outbox::new();
    for name in ["a", "b", "c", "d", "e"] {
        outbox.stage(id(name));
    }
    outbox.begin_send(&id("b"), 0);
    outbox.begin_send(&id("c"), 0);
    outbox.mark_failed(&id("c"), 100);
    outbox.begin_send(&id("d"), 0);
    outbox.mark_sent(&id("d"));
    outbox.begin_send(&id("e"), 0);
    outbox.mark_failed(&id("e"), 50);
    assert_eq!(outbox.eligible(0), vec!["a"]);
    assert_eq!(outbox.eligible(49), vec!["a"]);
    assert_eq!(outbox.eligible(50), vec!["a", "e"]);
    assert_eq!(outbox.eligible(100), vec!["a", "c", "e"]);
    assert_eq!(Outbox::new().eligible(100), Vec::<String>::new());
}

#[test]
fn purge_drops_only_sent_entries() {
    let mut outbox = Outbox::new();
    for name in ["a", "b", "c", "d"] {
        outbox.stage(id(name));
    }
    outbox.begin_send(&id("a"), 0);
    outbox.mark_sent(&id("a"));
    outbox.begin_send(&id("c"), 0);
    outbox.mark_sent(&id("c"));
    outbox.begin_send(&id("d"), 0);
    outbox.mark_failed(&id("d"), 7);
    assert_eq!(outbox.purge_sent(), 2);
    assert_eq!(outbox.len(), 2);
    assert!(outbox.get(&id("a")).is_none());
    assert!(outbox.get(&id("c")).is_none());
    assert_eq!(entry_fields(&outbox, "b"), (OutboxState::Pending, 0, None));
    assert_eq!(entry_fields(&outbox, "d"), (OutboxState::Failed, 1, Some(7)));
    assert_eq!(outbox.eligible(7), vec!["b", "d"]);
    assert_eq!(outbox.purge_sent(), 0);
    assert_eq!(outbox.len(), 2);
}

#[test]
fn entry_that_cannot_count_further_refuses_a_failure() {
    let mut entry = OutboxEntry::new(id("op-1"));
    assert!(entry.advance(OutboxEvent::BeginSend { now: 0 }));
    entry.attempts = u64::MAX;
    assert!(!entry.advance(OutboxEvent::Failed { next_retry_at: 5 }));
    assert_eq!(entry.state, OutboxState::Sending);
    assert_eq!(entry.attempts, u64::MAX);
    assert_eq!(entry.next_retry_at, None);
    assert!(entry.advance(OutboxEvent::Sent));
    assert_eq!(entry.state, OutboxState::Sent);
}

#[test]
fn failed_entry_without_a_retry_time_is_not_eligible() {
    let mut entry = OutboxEntry::new(id("op-1"));
    assert!(entry.is_eligible(0));
    entry.state = OutboxState::Failed;
    assert!(!entry.is_eligible(u64::MAX));
    entry.next_retry_at = Some(10);
    assert!(!entry.is_eligible(9));
    assert!(entry.is_eligible(10));
    entry.state = OutboxState::Sending;
    assert!(!entry.is_eligible(10));
    entry.state = OutboxState::Sent;
    assert!(!entry.is_eligible(10));
}
