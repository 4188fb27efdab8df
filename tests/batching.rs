use discord_influx::batch::{ChunksTimeout, Polled, Step};
use std::time::Duration;

fn emitted(s: Step<u32>) -> Vec<u32> {
    match s {
        Step::Emit(v) => v,
        _ => panic!("expected a batch"),
    }
}

#[test]
fn full_buffer_emits_without_timer() {
    let mut c: ChunksTimeout<u32> = ChunksTimeout::new(3, Duration::from_millis(500));
    assert!(matches!(c.step(Polled::Ready(1), false), Step::Continue));
    assert!(c.is_armed());
    assert!(matches!(c.step(Polled::Ready(2), false), Step::Continue));
    assert_eq!(emitted(c.step(Polled::Ready(3), false)), vec![1, 2, 3]);
    assert!(!c.is_armed());
    assert_eq!(c.buffered_len(), 0);
}

#[test]
fn stalled_source_waits_for_the_deadline() {
    let mut c: ChunksTimeout<u32> = ChunksTimeout::new(4, Duration::from_millis(500));
    assert!(matches!(c.step(Polled::Ready(7), false), Step::Continue));
    assert!(matches!(c.step(Polled::Pending, false), Step::Wait));
    assert!(matches!(c.step(Polled::Pending, false), Step::Wait));
    assert_eq!(emitted(c.step(Polled::Pending, true)), vec![7]);
    assert!(!c.is_armed());
    assert!(matches!(c.step(Polled::Pending, true), Step::Wait));
}

#[test]
fn item_at_the_deadline_is_still_counted() {
    let mut c: ChunksTimeout<u32> = ChunksTimeout::new(2, Duration::from_millis(10));
    c.step(Polled::Ready(1), false);
    assert_eq!(emitted(c.step(Polled::Ready(2), true)), vec![1, 2]);
}

#[test]
fn exhaustion_emits_one_final_batch_then_ends() {
    let mut c: ChunksTimeout<u32> = ChunksTimeout::new(5, Duration::from_millis(500));
    c.step(Polled::Ready(1), false);
    c.step(Polled::Ready(2), false);
    assert_eq!(emitted(c.step(Polled::Done, false)), vec![1, 2]);
    assert!(matches!(c.step(Polled::Done, false), Step::Finished));
}

#[test]
fn exhaustion_with_empty_buffer_ends_at_once() {
    let mut c: ChunksTimeout<u32> = ChunksTimeout::new(5, Duration::from_millis(500));
    assert!(matches!(c.step(Polled::Done, false), Step::Finished));
}

#[test]
fn size_hint_counts_the_partial_batch() {
    let mut c: ChunksTimeout<u32> = ChunksTimeout::new(5, Duration::from_millis(500));
    assert_eq!(c.size_hint(3, Some(4)), (3, Some(4)));
    c.step(Polled::Ready(1), false);
    assert_eq!(c.size_hint(3, Some(4)), (4, Some(5)));
    assert_eq!(c.size_hint(usize::MAX, Some(usize::MAX)), (usize::MAX, None));
    assert_eq!(c.size_hint(0, None), (1, None));
    assert!(!c.is_terminated(true));
}

#[test]
fn terminated_when_source_done_and_buffer_empty() {
    let c: ChunksTimeout<u32> = ChunksTimeout::new(1, Duration::from_millis(1));
    assert!(c.is_terminated(true));
    assert!(!c.is_terminated(false));
    assert_eq!(c.capacity(), 1);
    assert_eq!(c.batch_duration(), Duration::from_millis(1));
}

#[test]
fn full_buffer_of_one_and_of_five() {
    let mut c: ChunksTimeout<u32> = ChunksTimeout::new(1, Duration::from_millis(500));
    assert_eq!(emitted(c.step(Polled::Ready(9), false)), vec![9]);
    let mut c: ChunksTimeout<u32> = ChunksTimeout::new(5, Duration::from_millis(500));
    for x in 1..5 {
        assert!(matches!(c.step(Polled::Ready(x), true), Step::Continue));
    }
    assert_eq!(emitted(c.step(Polled::Ready(5), true)), vec![1, 2, 3, 4, 5]);
}

#[test]
fn exhaustion_after_several_items_emits_them_all_once() {
    let mut c: ChunksTimeout<u32> = ChunksTimeout::new(10, Duration::from_millis(500));
    for x in [4, 5, 6] {
        assert!(matches!(c.step(Polled::Ready(x), false), Step::Continue));
    }
    assert_eq!(emitted(c.step(Polled::Done, true)), vec![4, 5, 6]);
    assert!(matches!(c.step(Polled::Done, true), Step::Finished));
    assert!(c.is_terminated(true));
}
