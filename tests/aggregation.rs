use discord_influx::stream::{AggStep, MessageAggregate};
use discord_influx::window::{Aggregation, Aggregator, Location, Message};

fn msg(time: i64, guild: &str, channel: &str) -> Message {
    Message {
        time,
        location: Location { guild: guild.to_string(), channel: channel.to_string() },
    }
}

fn agg(time: i64, guild: &str, channel: &str, count: u64) -> Aggregation {
    Aggregation {
        location: Location { guild: guild.to_string(), channel: channel.to_string() },
        time,
        count,
    }
}

#[test]
fn end_to_end_threshold_two() {
    let mut a = Aggregator::new(2);
    for _ in 0..3 {
        assert!(a.push(msg(0, "g", "A")).is_none());
    }
    for _ in 0..2 {
        assert!(a.push(msg(1, "g", "A")).is_none());
    }
    let out = a.push(msg(5, "g", "B")).expect("overdue groups");
    assert_eq!(out, vec![agg(0, "g", "A", 3), agg(1, "g", "A", 2)]);
    assert_eq!(a.min_time(), Some(5));
    assert_eq!(a.flush(), Some(vec![agg(5, "g", "B", 1)]));
    assert_eq!(a.flush(), None);
}

#[test]
fn within_threshold_never_emits() {
    let mut a = Aggregator::new(5);
    for t in [0i64, 3, 1, 5, 2, 4, 5, 0] {
        assert!(a.push(msg(t, "g", "c")).is_none());
    }
    assert_eq!(a.pending_len(), 8);
    assert_eq!(a.min_time(), None);
    assert_eq!(a.max_time(), Some(5));
}

#[test]
fn equal_keys_count_into_one_group_in_any_order() {
    let mut a = Aggregator::new(10);
    a.push(msg(3, "g", "x"));
    a.push(msg(2, "g", "y"));
    a.push(msg(3, "g", "x"));
    a.push(msg(2, "g", "y"));
    a.push(msg(3, "g", "x"));
    let out = a.flush().unwrap();
    assert_eq!(out, vec![agg(2, "g", "y", 2), agg(3, "g", "x", 3)]);
}

#[test]
fn equal_times_finalize_in_key_order() {
    let mut a = Aggregator::new(5);
    a.push(msg(1, "b", "z"));
    a.push(msg(1, "a", "z"));
    a.push(msg(1, "a", "y"));
    let out = a.flush().unwrap();
    assert_eq!(out, vec![agg(1, "a", "y", 1), agg(1, "a", "z", 1), agg(1, "b", "z", 1)]);
}

#[test]
fn stale_event_is_dropped() {
    let mut a = Aggregator::new(1);
    a.push(msg(0, "g", "c"));
    a.push(msg(1, "g", "c"));
    let out = a.push(msg(4, "g", "c")).unwrap();
    assert_eq!(out, vec![agg(0, "g", "c", 1), agg(1, "g", "c", 1)]);
    assert_eq!(a.min_time(), Some(4));
    assert!(a.push(msg(2, "g", "c")).is_none());
    assert_eq!(a.pending_len(), 1);
    assert_eq!(a.flush(), Some(vec![agg(4, "g", "c", 1)]));
}

#[test]
fn negative_time_is_accepted_on_a_fresh_engine() {
    let mut a = Aggregator::new(3);
    assert!(a.push(msg(-1, "g", "c")).is_none());
    assert_eq!(a.pending_len(), 1);
    assert_eq!(a.min_time(), None);
    assert_eq!(a.flush(), Some(vec![agg(-1, "g", "c", 1)]));
    assert_eq!(a.min_time(), Some(-1));
}

#[test]
fn first_events_far_from_zero_are_buffered() {
    let mut a = Aggregator::new(2);
    assert!(a.push(msg(26_666_666, "g", "c")).is_none());
    assert!(a.push(msg(26_666_667, "g", "c")).is_none());
    assert!(a.push(msg(26_666_668, "g", "c")).is_none());
    assert_eq!(a.min_time(), None);
    assert_eq!(a.max_time(), Some(26_666_668));
    let out = a.push(msg(26_666_669, "g", "c")).unwrap();
    assert_eq!(out, vec![agg(26_666_666, "g", "c", 1)]);
    assert_eq!(a.min_time(), Some(26_666_667));
}

#[test]
fn equal_events_far_from_zero_form_one_group() {
    let mut a = Aggregator::new(2);
    assert!(a.push(msg(100, "g", "A")).is_none());
    assert!(a.push(msg(100, "g", "A")).is_none());
    assert_eq!(a.flush(), Some(vec![agg(100, "g", "A", 2)]));
}

#[test]
fn within_threshold_far_from_zero_never_emits() {
    let mut a = Aggregator::new(5);
    for t in [1005i64, 1000, 1003, 1001, 1005, 1002] {
        assert!(a.push(msg(t, "g", "c")).is_none());
    }
    let out = a.flush().unwrap();
    assert_eq!(out.len(), 5);
    assert_eq!(out[0], agg(1000, "g", "c", 1));
    assert_eq!(out[4], agg(1005, "g", "c", 2));
}

#[test]
fn extreme_times_do_not_overflow() {
    let mut a = Aggregator::new(0);
    assert!(a.push(msg(i64::MIN, "g", "c")).is_none());
    let out = a.push(msg(i64::MAX, "g", "c")).unwrap();
    assert_eq!(out, vec![agg(i64::MIN, "g", "c", 1)]);
    assert_eq!(a.flush(), Some(vec![agg(i64::MAX, "g", "c", 1)]));
}

#[test]
fn watermark_never_decreases() {
    let mut a = Aggregator::new(1);
    let mut last = a.min_time();
    for t in [0i64, 2, 1, 5, 3, 9, 9, 4, 12, 11] {
        a.push(msg(t, "g", "c"));
        if last.is_some() {
            assert!(a.min_time() >= last);
        }
        last = a.min_time();
    }
    assert!(last.is_some());
    a.flush();
    assert!(a.min_time() >= last);
}

#[test]
fn flush_emits_one_aggregation_per_group_and_empties() {
    let mut a = Aggregator::new(100);
    a.push(msg(1, "g", "a"));
    a.push(msg(1, "g", "b"));
    a.push(msg(2, "g", "a"));
    a.push(msg(1, "g", "a"));
    let out = a.flush().unwrap();
    assert_eq!(out, vec![agg(1, "g", "a", 2), agg(1, "g", "b", 1), agg(2, "g", "a", 1)]);
    assert_eq!(a.pending_len(), 0);
    assert_eq!(a.flush(), None);
}

#[test]
fn stream_pulls_emits_and_finishes() {
    let mut s = MessageAggregate::new(2);
    assert!(matches!(s.step(Some(msg(0, "g", "A"))), AggStep::Pull));
    assert!(matches!(s.step(Some(msg(1, "g", "A"))), AggStep::Pull));
    match s.step(Some(msg(5, "g", "B"))) {
        AggStep::Emit(v) => assert_eq!(v, vec![agg(0, "g", "A", 1), agg(1, "g", "A", 1)]),
        _ => panic!("expected an emission"),
    }
    match s.step(None) {
        AggStep::Emit(v) => assert_eq!(v, vec![agg(5, "g", "B", 1)]),
        _ => panic!("expected the final flush"),
    }
    assert!(matches!(s.step(None), AggStep::Finished));
}

#[test]
fn precedes_and_same_group() {
    let a = msg(1, "a", "b");
    let b = msg(1, "a", "c");
    let c = msg(0, "z", "z");
    assert!(a.precedes(&b));
    assert!(!b.precedes(&a));
    assert!(c.precedes(&a));
    assert!(!a.precedes(&a));
    assert!(a.same_group(&msg(1, "a", "b")));
    assert!(!a.same_group(&b));
}

#[test]
fn group_counted_once_while_others_are_finalized() {
    let mut a = Aggregator::new(1);
    assert!(a.push(msg(10, "g", "A")).is_none());
    assert!(a.push(msg(11, "g", "B")).is_none());
    assert!(a.push(msg(11, "g", "B")).is_none());
    assert_eq!(a.push(msg(12, "g", "C")), Some(vec![agg(10, "g", "A", 1)]));
    assert!(a.push(msg(11, "g", "B")).is_none());
    assert_eq!(a.push(msg(13, "g", "D")), Some(vec![agg(11, "g", "B", 3)]));
    assert_eq!(a.flush(), Some(vec![agg(12, "g", "C", 1), agg(13, "g", "D", 1)]));
}
