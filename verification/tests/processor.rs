use rcore_thread::{Context, Processor, StrideScheduler, ThreadPool, STACK_SIZE};

fn setup(slots: usize) -> (Processor, ThreadPool<StrideScheduler>) {
    let mut cpu = Processor::new();
    cpu.init(0, Context::uninit());
    (cpu, ThreadPool::new(StrideScheduler::new(5), slots))
}

#[test]
fn idle_cpu_reports_no_thread() {
    let (cpu, mut pool) = setup(1);
    assert_eq!(cpu.tid_option(), None);
    let mut cpu = cpu;
    assert_eq!(cpu.schedule(&mut pool), None);
    assert_eq!(cpu.tid_option(), None);
}

#[test]
fn schedule_installs_the_pools_choice() {
    let (mut cpu, mut pool) = setup(1);
    let a = pool.spawn(0x2000, 5, STACK_SIZE);
    assert_eq!(cpu.schedule(&mut pool), Some(a));
    assert_eq!(cpu.tid(), a);
    assert_eq!(cpu.tid_option(), Some(a));
    assert_eq!(
        *cpu.context(),
        Context { entry: 0x2000, arg0: 5, stack_top: STACK_SIZE + STACK_SIZE }
    );
}

#[test]
fn finish_returns_a_yielding_thread_to_the_queue() {
    let (mut cpu, mut pool) = setup(1);
    let a = pool.spawn(0x2000, 0, STACK_SIZE);
    assert_eq!(cpu.schedule(&mut pool), Some(a));
    cpu.finish(&mut pool);
    assert_eq!(cpu.tid_option(), None);
    assert_eq!(cpu.schedule(&mut pool), Some(a));
}

#[test]
fn finish_commits_a_deferred_exit() {
    let (mut cpu, mut pool) = setup(1);
    let a = pool.spawn(0x2000, 0, STACK_SIZE);
    assert_eq!(cpu.schedule(&mut pool), Some(a));
    pool.exit(a, 9);
    cpu.finish(&mut pool);
    assert_eq!(pool.try_remove(a), Some(9));
}

#[test]
fn tick_asks_for_a_reschedule_when_the_slice_is_spent() {
    let (mut cpu, mut pool) = setup(1);
    let a = pool.spawn(0x2000, 0, STACK_SIZE);
    assert_eq!(cpu.schedule(&mut pool), Some(a));
    for _ in 0..4 {
        assert!(!cpu.tick(&mut pool));
    }
    assert!(cpu.tick(&mut pool));
}

#[test]
fn idle_ticks_still_drive_the_timer_on_cpu_zero() {
    let (mut cpu, mut pool) = setup(1);
    let a = pool.spawn(0x2000, 0, STACK_SIZE);
    assert_eq!(cpu.schedule(&mut pool), Some(a));
    pool.sleep(a, 2);
    cpu.finish(&mut pool);
    assert!(!cpu.tick(&mut pool));
    assert_eq!(cpu.schedule(&mut pool), None);
    assert!(!cpu.tick(&mut pool));
    assert_eq!(cpu.schedule(&mut pool), Some(a));
}
