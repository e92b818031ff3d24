use rcore_thread::{Event, Timer};

#[test]
fn new_timer_is_empty_at_tick_zero() {
    let mut t = Timer::new();
    assert_eq!(t.pop(), None);
}

#[test]
fn event_not_due_until_delta_ticks() {
    let mut t = Timer::new();
    t.start(3, Event::Wakeup(7));
    assert_eq!(t.pop(), None);
    t.tick();
    assert_eq!(t.pop(), None);
    t.tick();
    assert_eq!(t.pop(), None);
    t.tick();
    assert_eq!(t.pop(), Some(Event::Wakeup(7)));
    assert_eq!(t.pop(), None);
}

#[test]
fn pop_drains_all_due_events_earliest_first() {
    let mut t = Timer::new();
    t.start(2, Event::Wakeup(1));
    t.start(1, Event::Wakeup(2));
    t.start(3, Event::Wakeup(3));
    for _ in 0..3 {
        t.tick();
    }
    assert_eq!(t.pop(), Some(Event::Wakeup(2)));
    assert_eq!(t.pop(), Some(Event::Wakeup(1)));
    assert_eq!(t.pop(), Some(Event::Wakeup(3)));
    assert_eq!(t.pop(), None);
}

#[test]
fn equal_deadlines_keep_insertion_order() {
    let mut t = Timer::new();
    t.start(1, Event::Wakeup(10));
    t.start(1, Event::Wakeup(11));
    t.start(1, Event::Wakeup(12));
    t.tick();
    assert_eq!(t.pop(), Some(Event::Wakeup(10)));
    assert_eq!(t.pop(), Some(Event::Wakeup(11)));
    assert_eq!(t.pop(), Some(Event::Wakeup(12)));
}

#[test]
fn stop_removes_first_matching_entry_only() {
    let mut t = Timer::new();
    t.start(1, Event::Wakeup(5));
    t.start(2, Event::Wakeup(5));
    t.start(1, Event::Wakeup(6));
    t.stop(Event::Wakeup(5));
    t.tick();
    t.tick();
    assert_eq!(t.pop(), Some(Event::Wakeup(6)));
    assert_eq!(t.pop(), Some(Event::Wakeup(5)));
    assert_eq!(t.pop(), None);
}

#[test]
fn stop_of_absent_event_changes_nothing() {
    let mut t = Timer::new();
    t.start(1, Event::Wakeup(1));
    t.stop(Event::Wakeup(9));
    t.tick();
    assert_eq!(t.pop(), Some(Event::Wakeup(1)));
}
