use sched_alloc::scheduler::Scheduler;
use sched_alloc::simulation::{arrive, generate_task, run_scheduler, time_for_next_schedule};
use sched_alloc::task::Task;
use std::cmp::Ordering;

#[test]
fn task_new_sets_all_operations_remaining() {
    let t = Task::new(7, 3);
    assert_eq!(t.id, 7);
    assert_eq!(t.total_operations, 3);
    assert_eq!(t.operations_remaining, 3);
    assert_eq!(t.result, 0);
    assert!(!t.is_completed());
}

#[test]
fn task_step_adds_remaining_operations_to_result() {
    let mut t = Task::new(7, 3);
    t.step();
    assert_eq!(t.result, 3);
    assert_eq!(t.operations_remaining, 2);
    t.step();
    assert_eq!(t.result, 5);
    t.step();
    assert_eq!(t.result, 6);
    assert_eq!(t.operations_remaining, 0);
    assert!(t.is_completed());
    assert_eq!(t.total_operations, 3);
}

#[test]
fn task_with_fewer_operations_has_higher_priority() {
    let short = Task::new(1, 2);
    let long = Task::new(2, 9);
    assert_eq!(short.priority_order(&long), Ordering::Greater);
    assert_eq!(long.priority_order(&short), Ordering::Less);
    assert_eq!(short.priority_order(&Task::new(3, 2)), Ordering::Equal);
}

#[test]
fn scheduler_new_is_idle() {
    let s = Scheduler::new();
    assert!(!s.has_tasks());
    assert_eq!(s.tick, 0);
    assert!(s.current_task.is_none());
    assert_eq!(s.total_wait_time, 0);
    assert_eq!(s.total_tasks_completed, 0);
    assert_eq!(s.total_idle_time, 0);
}

#[test]
fn scheduler_runs_shortest_job_first_without_preemption() {
    let mut s = Scheduler::new();
    s.schedule(Task::new(1, 3));
    s.schedule(Task::new(2, 1));
    assert!(s.has_tasks());
    assert_eq!(s.schedule_time.get(&1), Some(&0));
    assert_eq!(s.total_tasks_by_ops.get(&3), Some(&1));
    assert_eq!(s.total_tasks_by_ops.get(&1), Some(&1));

    // the one-operation task starts and ends within the first tick
    s.tick();
    assert_eq!(s.tick, 1);
    assert!(s.current_task.is_none());
    assert_eq!(s.total_wait_time, 1);
    assert_eq!(s.wait_time_by_ops.get(&1), Some(&1));
    assert_eq!(s.total_tasks_completed, 0);

    s.tick();
    let running = s.current_task.clone().unwrap();
    assert_eq!(running.id, 1);
    assert_eq!(running.operations_remaining, 2);
    assert_eq!(s.total_wait_time, 3);
    assert_eq!(s.wait_time_by_ops.get(&3), Some(&2));

    // a shorter task that arrives now does not preempt the running one
    s.schedule(Task::new(3, 1));
    s.tick();
    assert_eq!(s.current_task.clone().unwrap().id, 1);
    s.tick();
    assert!(s.current_task.is_none());
    assert_eq!(s.total_tasks_completed, 1);

    s.tick();
    assert!(!s.has_tasks());
    assert_eq!(s.wait_time_by_ops.get(&1), Some(&4));
    assert_eq!(s.total_wait_time, 6);

    s.tick();
    assert_eq!(s.total_idle_time, 1);
    assert_eq!(s.tick, 6);
}

#[test]
fn scheduler_counts_idle_ticks() {
    let mut s = Scheduler::new();
    s.tick();
    s.tick();
    assert_eq!(s.total_idle_time, 2);
    assert_eq!(s.tick, 2);
    assert!(!s.has_tasks());
}

#[test]
fn generate_task_draws_operations_in_range() {
    let mut seen_other_than_low = false;
    for _ in 0..200 {
        let t = generate_task(5, 20);
        assert!(t.total_operations >= 5 && t.total_operations < 20);
        assert_eq!(t.operations_remaining, t.total_operations);
        assert_eq!(t.result, 0);
        if t.total_operations != 5 {
            seen_other_than_low = true;
        }
    }
    assert!(seen_other_than_low);
}

#[test]
fn time_for_next_schedule_draws_in_range() {
    let mut seen_other_than_low = false;
    for _ in 0..200 {
        let r = time_for_next_schedule(3, 13);
        assert!(r >= 3 && r < 13);
        if r != 3 {
            seen_other_than_low = true;
        }
    }
    assert!(seen_other_than_low);
}

#[test]
fn run_scheduler_completes_every_task() {
    let s = run_scheduler(50, 0, 10, 5, 20);
    assert!(!s.has_tasks());
    assert_eq!(s.total_tasks_completed, 50);
    let scheduled: u64 = s.total_tasks_by_ops.values().sum();
    assert_eq!(scheduled, 50);
    assert!(s.total_idle_time <= s.tick);
}

#[test]
fn run_scheduler_counts_every_task_that_arrived() {
    let s = run_scheduler(40, 0, 5, 1, 3);
    let single = *s.total_tasks_by_ops.get(&1).unwrap_or(&0);
    assert_eq!(s.total_tasks_completed + single, 40);
    assert!(s.total_tasks_by_ops.keys().all(|k| *k >= 1 && *k < 3));
}

#[test]
fn run_scheduler_keeps_the_statistics_of_every_size() {
    let s = run_scheduler(200, 0, 3, 2, 30);
    let scheduled: u64 = s.total_tasks_by_ops.values().sum();
    assert_eq!(scheduled, 200);
    let mut sizes: Vec<u64> = s.total_tasks_by_ops.keys().copied().collect();
    let mut waited: Vec<u64> = s.wait_time_by_ops.keys().copied().collect();
    sizes.sort();
    waited.sort();
    assert_eq!(sizes, waited);
    let waits: u64 = s.wait_time_by_ops.values().sum();
    assert_eq!(waits, s.total_wait_time);
    assert!(s.total_wait_time > 0);
}

#[test]
fn task_running_all_its_steps_ends_with_the_triangular_number() {
    let mut t = Task::new(4, 10);
    for _ in 0..10 {
        t.step();
    }
    assert!(t.is_completed());
    assert_eq!(t.result, 55);
}

#[test]
fn ticks_drain_the_pending_work_without_idling() {
    let mut s = Scheduler::new();
    s.schedule(Task::new(1, 4));
    s.schedule(Task::new(2, 2));
    s.schedule(Task::new(3, 5));
    for _ in 0..11 {
        assert!(s.has_tasks());
        s.tick();
    }
    assert!(!s.has_tasks());
    assert_eq!(s.tick, 11);
    assert_eq!(s.total_idle_time, 0);
    s.tick();
    assert_eq!(s.total_idle_time, 1);
}

#[test]
fn run_scheduler_clock_covers_every_arrival() {
    let s = run_scheduler(30, 2, 5, 1, 2);
    assert!(s.tick >= 30 + 29 * 2);
    assert!(s.total_idle_time <= s.tick);
}

#[test]
fn arrive_queues_the_task_and_starts_the_countdown() {
    let mut s = Scheduler::new();
    let mut remaining: u64 = 3;
    let mut countdown: u64 = 0;
    arrive(&mut s, &mut remaining, &mut countdown, Task::new(9, 4), 7);
    assert_eq!(remaining, 2);
    assert_eq!(countdown, 7);
    assert_eq!(s.queue.len(), 1);
    assert_eq!(s.schedule_time.get(&9), Some(&0));
    assert_eq!(s.total_tasks_by_ops.get(&4), Some(&1));
}

#[test]
fn tick_with_a_large_wait_total_still_runs_the_current_task() {
    let mut s = Scheduler::new();
    s.schedule(Task::new(1, 3));
    s.tick();
    s.total_wait_time = u64::MAX;
    s.tick();
    assert_eq!(s.current_task.as_ref().map(|t| t.operations_remaining), Some(1));
    assert_eq!(s.total_wait_time, u64::MAX);
}
