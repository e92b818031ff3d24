use rcore_thread::{Context, StrideScheduler, ThreadPool, STACK_SIZE};

fn pool(slots: usize) -> ThreadPool<StrideScheduler> {
    ThreadPool::new(StrideScheduler::new(5), slots)
}

fn stack(i: usize) -> usize {
    (i + 1) * STACK_SIZE
}

#[test]
fn spawn_fills_lowest_slot_first() {
    let mut p = pool(4);
    assert_eq!(p.spawn(0x1000, 1, stack(0)), 0);
    assert_eq!(p.spawn(0x1000, 2, stack(1)), 1);
    assert_eq!(p.spawn(0x1000, 3, stack(2)), 2);
}

#[test]
fn spawned_context_resumes_entry_on_its_stack() {
    let mut p = pool(1);
    let tid = p.spawn(0x1234, 77, stack(0));
    let (t, ctx) = p.run(0).unwrap();
    assert_eq!(t, tid);
    assert_eq!(
        ctx,
        Context { entry: 0x1234, arg0: 77, stack_top: stack(0) + STACK_SIZE }
    );
}

#[test]
fn run_returns_none_when_nothing_is_ready() {
    let mut p = pool(2);
    assert!(p.run(0).is_none());
    let tid = p.spawn(0x1000, 0, stack(0));
    let (t, ctx) = p.run(0).unwrap();
    assert_eq!(t, tid);
    // the thread is running now, so a second CPU finds nothing
    assert!(p.run(1).is_none());
    p.stop(t, ctx);
    // back to ready: it can be picked again
    assert_eq!(p.run(1).unwrap().0, tid);
}

#[test]
fn yielding_thread_goes_to_the_back_of_the_queue() {
    let mut p = pool(2);
    let a = p.spawn(0x1000, 0, stack(0));
    let b = p.spawn(0x1000, 1, stack(1));
    let (t1, c1) = p.run(0).unwrap();
    assert_eq!(t1, a);
    p.stop(t1, c1);
    let (t2, c2) = p.run(0).unwrap();
    assert_eq!(t2, b);
    p.stop(t2, c2);
}

#[test]
fn sleeping_thread_wakes_after_exactly_its_delay() {
    let mut p = pool(1);
    let a = p.spawn(0x1000, 0, stack(0));
    let (t, ctx) = p.run(0).unwrap();
    p.sleep(t, 10);
    p.stop(t, ctx);
    for _ in 0..9 {
        p.tick(0, None);
        assert!(p.run(0).is_none());
    }
    p.tick(0, None);
    assert_eq!(p.run(0).unwrap().0, a);
}

#[test]
fn wakeup_rouses_only_sleeping_threads() {
    let mut p = pool(1);
    let a = p.spawn(0x1000, 0, stack(0));
    // waking a ready thread changes nothing: it is picked once, then gone
    p.wakeup(a);
    let (t, ctx) = p.run(0).unwrap();
    assert_eq!(t, a);
    assert!(p.run(0).is_none());
    p.sleep(t, 0);
    p.stop(t, ctx);
    assert!(p.run(0).is_none());
    p.wakeup(a);
    assert_eq!(p.run(0).unwrap().0, a);
}

#[test]
fn ticks_on_other_cpus_leave_the_timer_alone() {
    let mut p = pool(1);
    let a = p.spawn(0x1000, 0, stack(0));
    let (t, ctx) = p.run(0).unwrap();
    p.sleep(t, 1);
    p.stop(t, ctx);
    // CPU 1 does not drive the timer
    for _ in 0..5 {
        p.tick(1, None);
    }
    assert!(p.run(0).is_none());
    p.tick(0, None);
    assert_eq!(p.run(0).unwrap().0, a);
}

#[test]
fn exit_wakes_the_waiter_and_keeps_a_zombie() {
    let mut p = pool(2);
    let parent = p.spawn(0x1000, 0, stack(0));
    let child = p.spawn(0x1000, 1, stack(1));
    let (t, ctx) = p.run(0).unwrap();
    assert_eq!(t, parent);
    p.wait(parent, child);
    p.stop(t, ctx);
    // parent sleeps; only the child is runnable
    let (t, ctx) = p.run(0).unwrap();
    assert_eq!(t, child);
    p.exit(child, 8);
    p.stop(t, ctx);
    // the child's exit woke the parent
    let (t, ctx) = p.run(0).unwrap();
    assert_eq!(t, parent);
    // consume the exit code; a second attempt finds the slot already gone
    assert_eq!(p.try_remove(child), Some(8));
    assert_eq!(p.try_remove(child), None);
    p.exit(parent, 0);
    p.stop(t, ctx);
    assert_eq!(p.try_remove(parent), Some(0));
    // both slots are free at the end
    assert_eq!(p.spawn(0x1000, 2, stack(0)), 0);
    assert_eq!(p.spawn(0x1000, 3, stack(1)), 1);
}

#[test]
fn eight_children_report_their_indices_in_spawn_order() {
    let mut p = pool(8);
    let mut tids = Vec::new();
    for i in 0..8 {
        tids.push(p.spawn(0x1000, i, stack(i)));
    }
    // run every child once; each exits with its own index
    for _ in 0..8 {
        let (t, ctx) = p.run(0).unwrap();
        p.exit(t, t);
        p.stop(t, ctx);
    }
    // collected in spawn order, the codes read 0 through 7
    for i in 0..8 {
        assert_eq!(p.try_remove(tids[i]), Some(i));
    }
}

#[test]
fn try_remove_of_a_live_thread_is_none() {
    let mut p = pool(1);
    let a = p.spawn(0x1000, 0, stack(0));
    assert_eq!(p.try_remove(a), None);
}

#[test]
fn try_remove_of_an_empty_slot_is_none() {
    let mut p = pool(2);
    assert_eq!(p.try_remove(0), None);
    assert_eq!(p.try_remove(1), None);
}

#[test]
fn pool_priorities_weight_the_executor_loop() {
    let mut p = pool(2);
    let a = p.spawn(0x1000, 0, stack(0));
    let b = p.spawn(0x1000, 1, stack(1));
    p.set_priority(a, 0);
    p.set_priority(b, 3);
    let mut picks = [0usize; 2];
    for _ in 0..100 {
        let (t, ctx) = p.run(0).unwrap();
        picks[t] += 1;
        p.stop(t, ctx);
    }
    assert_eq!(picks[a] + picks[b], 100);
    assert!(picks[a] >= 19 && picks[a] <= 21, "thread a picked {} times", picks[a]);
    assert!(picks[b] >= 79 && picks[b] <= 81, "thread b picked {} times", picks[b]);
}

#[test]
fn detached_slot_is_released_on_exit() {
    let mut p = pool(2);
    let a = p.spawn(0x1000, 0, stack(0));
    p.detach(a);
    let (t, ctx) = p.run(0).unwrap();
    assert_eq!(t, a);
    p.exit(a, 0);
    p.stop(t, ctx);
    // the slot is free again: the identifier is reused at once
    assert_eq!(p.spawn(0x1000, 1, stack(0)), a);
}

#[test]
fn exit_while_running_is_deferred_to_stop() {
    let mut p = pool(1);
    let a = p.spawn(0x1000, 0, stack(0));
    let (t, ctx) = p.run(0).unwrap();
    p.exit(a, 42);
    // still occupying the CPU: the zombie appears only after stop
    assert_eq!(p.try_remove(a), None);
    p.stop(t, ctx);
    assert_eq!(p.try_remove(a), Some(42));
}

#[test]
fn cancel_sleeping_withdraws_a_pending_sleep() {
    let mut p = pool(1);
    let a = p.spawn(0x1000, 0, stack(0));
    let (t, ctx) = p.run(0).unwrap();
    p.sleep(t, 0);
    p.cancel_sleeping(t);
    p.stop(t, ctx);
    // the sleep never took effect: the thread is ready again
    assert_eq!(p.run(0).unwrap().0, a);
}

#[test]
fn sleep_of_a_ready_thread_takes_it_off_the_queue() {
    let mut p = pool(2);
    let a = p.spawn(0x1000, 0, stack(0));
    let b = p.spawn(0x1000, 1, stack(1));
    p.sleep(a, 0);
    assert_eq!(p.run(0).unwrap().0, b);
    assert!(p.run(0).is_none());
    p.wakeup(a);
    assert_eq!(p.run(0).unwrap().0, a);
}

#[test]
fn timer_entry_is_purged_when_a_sleeper_exits() {
    let mut p = pool(2);
    let a = p.spawn(0x1000, 0, stack(0));
    let b = p.spawn(0x1000, 1, stack(1));
    p.sleep(a, 3);
    // a exits while sleeping: its wakeup entry is removed with it
    p.exit(a, 1);
    assert_eq!(p.try_remove(a), Some(1));
    // the freed identifier is reused; the stale wakeup must not rouse it
    let c = p.spawn(0x1000, 2, stack(0));
    assert_eq!(c, a);
    p.sleep(c, 10);
    for _ in 0..5 {
        p.tick(0, None);
    }
    // only b is ready; c still sleeps despite the old entry's deadline
    assert_eq!(p.run(0).unwrap().0, b);
    assert!(p.run(0).is_none());
}

#[test]
fn time_slice_runs_out_after_the_quantum() {
    let mut p = pool(1);
    let a = p.spawn(0x1000, 0, stack(0));
    let (t, _ctx) = p.run(0).unwrap();
    assert_eq!(t, a);
    assert!(!p.tick(0, Some(t)));
    assert!(!p.tick(0, Some(t)));
    assert!(!p.tick(0, Some(t)));
    assert!(!p.tick(0, Some(t)));
    assert!(p.tick(0, Some(t)));
}
