use rcore_thread::{Scheduler, StrideScheduler};

#[test]
fn pop_on_empty_queue_is_none() {
    let mut s = StrideScheduler::new(5);
    assert_eq!(s.pop(0), None);
}

#[test]
fn single_thread_round_trips() {
    let mut s = StrideScheduler::new(5);
    s.push(3);
    assert_eq!(s.pop(0), Some(3));
    assert_eq!(s.pop(0), None);
}

#[test]
fn equal_passes_resolve_by_insertion_order() {
    let mut s = StrideScheduler::new(5);
    s.push(2);
    s.push(0);
    s.push(1);
    assert_eq!(s.pop(0), Some(2));
    assert_eq!(s.pop(0), Some(0));
    assert_eq!(s.pop(0), Some(1));
    assert_eq!(s.pop(0), None);
}

#[test]
fn remove_takes_a_queued_thread_out() {
    let mut s = StrideScheduler::new(5);
    s.push(0);
    s.push(1);
    s.push(2);
    s.remove(1);
    assert_eq!(s.pop(0), Some(0));
    assert_eq!(s.pop(0), Some(2));
    assert_eq!(s.pop(0), None);
}

#[test]
fn time_slice_expires_after_quantum_ticks() {
    let mut s = StrideScheduler::new(5);
    s.push(0);
    assert_eq!(s.pop(0), Some(0));
    assert!(!s.tick(0));
    assert!(!s.tick(0));
    assert!(!s.tick(0));
    assert!(!s.tick(0));
    assert!(s.tick(0));
}

#[test]
fn slice_resets_each_time_a_thread_is_selected() {
    let mut s = StrideScheduler::new(2);
    s.push(0);
    assert_eq!(s.pop(0), Some(0));
    assert!(!s.tick(0));
    assert!(s.tick(0));
    s.push(0);
    assert_eq!(s.pop(0), Some(0));
    assert!(!s.tick(0));
    assert!(s.tick(0));
}

#[test]
fn tick_of_unknown_thread_reports_expired() {
    let mut s = StrideScheduler::new(5);
    assert!(s.tick(9));
}

/// Weighted fairness: with priorities 0 and 3 the weights are 1 and 4, so
/// over 100 selections the threads are picked about 20 and 80 times.
#[test]
fn stride_weights_selections_by_priority() {
    let mut s = StrideScheduler::new(5);
    s.push(0);
    s.push(1);
    s.set_priority(0, 0);
    s.set_priority(1, 3);
    let mut picks = [0usize; 2];
    for _ in 0..100 {
        let t = s.pop(0).unwrap();
        picks[t] += 1;
        s.push(t);
    }
    assert_eq!(picks[0] + picks[1], 100);
    assert!(picks[0] >= 19 && picks[0] <= 21, "thread 0 picked {} times", picks[0]);
    assert!(picks[1] >= 79 && picks[1] <= 81, "thread 1 picked {} times", picks[1]);
}
