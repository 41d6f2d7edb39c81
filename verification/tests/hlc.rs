use std::cmp::Ordering;
use sync_core::hlc::{Hlc, HlcClock, MAX_DRIFT_MS};

fn hlc(physical_time: u64, logical_counter: u64) -> Hlc {
    Hlc { physical_time, logical_counter }
}

#[test]
fn new_clock_starts_at_zero() {
    let clock = HlcClock::new();
    assert_eq!(clock.latest(), hlc(0, 0));
    let clock = HlcClock::default();
    assert_eq!(clock.latest(), hlc(0, 0));
}

#[test]
fn tick_then_tick_then_merge_at_one_millisecond() {
    let mut clock = HlcClock::new();
    assert_eq!(clock.tick_at(1000), hlc(1000, 0));
    assert_eq!(clock.tick_at(1000), hlc(1000, 1));
    assert_eq!(clock.merge_at(hlc(1000, 5), 1000), Ok(hlc(1000, 6)));
    assert_eq!(clock.latest(), hlc(1000, 6));
}

#[test]
fn tick_resets_counter_when_wall_clock_advances() {
    let mut clock = HlcClock::new();
    assert_eq!(clock.tick_at(10), hlc(10, 0));
    assert_eq!(clock.tick_at(10), hlc(10, 1));
    assert_eq!(clock.tick_at(11), hlc(11, 0));
}

#[test]
fn tick_counts_up_when_wall_clock_runs_backward() {
    let mut clock = HlcClock::new();
    assert_eq!(clock.tick_at(500), hlc(500, 0));
    assert_eq!(clock.tick_at(400), hlc(500, 1));
    assert_eq!(clock.tick_at(0), hlc(500, 2));
    assert_eq!(clock.tick_at(500), hlc(500, 3));
    assert_eq!(clock.tick_at(501), hlc(501, 0));
}

#[test]
fn tick_at_zero_on_new_clock_counts_up() {
    let mut clock = HlcClock::new();
    assert_eq!(clock.tick_at(0), hlc(0, 1));
}

#[test]
fn tick_sequence_strictly_increases() {
    let readings: [u64; 8] = [5, 5, 3, 9, 9, 9, 2, 10];
    let mut clock = HlcClock::new();
    let mut previous = clock.latest();
    for now in readings {
        let next = clock.tick_at(now);
        assert!(previous < next);
        assert_eq!(clock.latest(), next);
        previous = next;
    }
}

#[test]
fn tick_with_the_wall_clock_strictly_increases() {
    let mut clock = HlcClock::new();
    let first = clock.tick();
    let second = clock.tick();
    let third = clock.tick();
    assert!(first < second);
    assert!(second < third);
    assert!(first.physical_time > 1_600_000_000_000);
    assert_eq!(clock.latest(), third);
}

#[test]
fn merge_rejects_remote_beyond_drift_and_keeps_state() {
    let mut clock = HlcClock::new();
    clock.tick_at(1000);
    clock.tick_at(1000);
    let result = clock.merge_at(hlc(1000 + MAX_DRIFT_MS + 1, 0), 1000);
    assert_eq!(result, Err("remote clock too far ahead".to_string()));
    assert_eq!(clock.latest(), hlc(1000, 1));
}

#[test]
fn merge_accepts_remote_exactly_at_the_drift_limit() {
    let mut clock = HlcClock::new();
    clock.tick_at(1000);
    let result = clock.merge_at(hlc(61_000, 7), 1000);
    assert_eq!(result, Ok(hlc(61_000, 8)));
    assert_eq!(clock.latest(), hlc(61_000, 8));
}

#[test]
fn merge_near_the_top_of_the_range_does_not_overflow_the_drift_check() {
    let mut clock = HlcClock::new();
    let now = u64::MAX - 10;
    assert_eq!(clock.merge_at(hlc(u64::MAX, 3), now), Ok(hlc(u64::MAX, 4)));
}

#[test]
fn merge_wall_clock_ahead_of_both_resets_counter() {
    let mut clock = HlcClock::new();
    clock.tick_at(100);
    clock.tick_at(100);
    assert_eq!(clock.merge_at(hlc(150, 9), 200), Ok(hlc(200, 0)));
}

#[test]
fn merge_remote_ahead_takes_remote_counter_plus_one() {
    let mut clock = HlcClock::new();
    clock.tick_at(100);
    assert_eq!(clock.merge_at(hlc(150, 9), 120), Ok(hlc(150, 10)));
}

#[test]
fn merge_tied_with_remote_takes_larger_counter_plus_one() {
    let mut clock = HlcClock::new();
    clock.tick_at(100);
    clock.tick_at(100);
    clock.tick_at(100);
    assert_eq!(clock.latest(), hlc(100, 2));
    assert_eq!(clock.merge_at(hlc(100, 1), 50), Ok(hlc(100, 3)));
    assert_eq!(clock.merge_at(hlc(100, 8), 50), Ok(hlc(100, 9)));
}

#[test]
fn merge_local_ahead_counts_local_up() {
    let mut clock = HlcClock::new();
    clock.tick_at(300);
    assert_eq!(clock.merge_at(hlc(200, 40), 250), Ok(hlc(300, 1)));
}

#[test]
fn merge_result_is_greater_than_local_and_remote() {
    let remotes = [hlc(0, 0), hlc(90, 3), hlc(100, 0), hlc(100, 7), hlc(130, 2)];
    let readings: [u64; 4] = [0, 99, 100, 131];
    for remote in remotes {
        for now in readings {
            let mut clock = HlcClock::new();
            clock.tick_at(100);
            clock.tick_at(100);
            let before = clock.latest();
            let merged = clock.merge_at(remote, now).unwrap();
            assert!(before < merged);
            assert!(remote < merged);
            assert_eq!(clock.latest(), merged);
        }
    }
}

#[test]
fn merge_with_the_wall_clock_accepts_an_old_remote() {
    let mut clock = HlcClock::new();
    let before = clock.tick();
    let merged = clock.merge(hlc(1000, 5)).unwrap();
    assert!(before < merged);
    assert!(hlc(1000, 5) < merged);
    assert_eq!(clock.latest(), merged);
}

#[test]
fn merge_with_the_wall_clock_rejects_a_far_future_remote() {
    let mut clock = HlcClock::new();
    let before = clock.tick();
    let result = clock.merge(hlc(u64::MAX, 0));
    assert_eq!(result, Err("remote clock too far ahead".to_string()));
    assert_eq!(clock.latest(), before);
}

#[test]
fn resolve_counter_follows_each_rule() {
    let mut clock = HlcClock::new();
    clock.tick_at(100);
    clock.tick_at(100);
    clock.tick_at(100);
    // the clock reads (100, 2)
    assert_eq!(clock.resolve_counter(90, hlc(95, 7)), 0);
    assert_eq!(clock.resolve_counter(90, hlc(100, 7)), 8);
    assert_eq!(clock.resolve_counter(100, hlc(100, 7)), 8);
    assert_eq!(clock.resolve_counter(100, hlc(100, 1)), 3);
    assert_eq!(clock.resolve_counter(100, hlc(40, 9)), 3);
}

#[test]
fn two_clocks_handing_timestamps_over_never_repeat_one() {
    let mut first = HlcClock::new();
    let mut second = HlcClock::new();
    let mut issued: Vec<Hlc> = Vec::new();
    issued.push(first.tick_at(1000));
    issued.push(first.tick_at(1000));
    issued.push(second.merge_at(first.latest(), 990).unwrap());
    issued.push(second.tick_at(990));
    issued.push(first.merge_at(second.latest(), 1000).unwrap());
    issued.push(first.tick_at(1001));
    issued.push(second.merge_at(first.latest(), 1001).unwrap());
    for i in 0..issued.len() {
        for j in (i + 1)..issued.len() {
            assert!(issued[i] < issued[j]);
            assert_ne!(issued[i], issued[j]);
        }
    }
}

#[test]
fn two_clocks_ticking_apart_can_issue_the_same_timestamp() {
    let mut first = HlcClock::new();
    let mut second = HlcClock::new();
    assert_eq!(first.tick_at(1000), second.tick_at(1000));
}

#[test]
fn hlc_orders_by_physical_time_then_counter() {
    assert!(hlc(1, 9) < hlc(2, 0));
    assert!(hlc(2, 0) < hlc(2, 1));
    assert!(hlc(2, 1) > hlc(1, 100));
    assert!(hlc(3, 3) <= hlc(3, 3));
    assert_eq!(hlc(1, 9).partial_cmp(&hlc(2, 0)), Some(Ordering::Less));
    assert_eq!(hlc(2, 5).partial_cmp(&hlc(2, 5)), Some(Ordering::Equal));
    assert_eq!(hlc(2, 6).partial_cmp(&hlc(2, 5)), Some(Ordering::Greater));
    assert_eq!(hlc(1, 9).cmp(&hlc(2, 0)), Ordering::Less);
    assert_eq!(hlc(2, 5).cmp(&hlc(2, 5)), Ordering::Equal);
    assert_eq!(hlc(7, 0).cmp(&hlc(6, 50)), Ordering::Greater);
    assert_eq!(hlc(7, 0).max(hlc(6, 50)), hlc(7, 0));
}
