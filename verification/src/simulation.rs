use rand::Rng;
use vstd::prelude::*;

use crate::scheduler::{
    Scheduler, count_of, next_index, queue_work, total_count, scheduled, lemma_busy_has_work,
    lemma_total_count_insert,
};
use crate::task::{Task, work_sum};

verus! {

/// Draws a task id at random, from rand's `random` (standard distribution of
/// `u16`). Nothing is promised of the value: any `u16` may come back.
#[verifier::external_body]
fn random_task_id() -> (id: u16) {
    rand::random()
}

/// Draws a number from `low..high` through rand's `Rng::gen_range` on the
/// thread-local generator. rand documents the half-open range and a panic
/// when `low >= high`, which `requires` rules out.
#[verifier::external_body]
fn random_in_range(low: u64, high: u64) -> (r: u64)
    requires
        low < high,
    ensures
        low <= r < high,
{
    rand::thread_rng().gen_range(low, high)
}

/// A fresh task with a random id and a random number of operations in
/// `min_ops..max_ops`.
pub fn generate_task(min_ops: u64, max_ops: u64) -> (t: Task)
    requires
        min_ops < max_ops,
    ensures
        min_ops <= t.total_operations < max_ops,
        t.operations_remaining == t.total_operations,
        t.result == 0,
{
    Task::new(random_task_id(), random_in_range(min_ops, max_ops))
}

/// How many ticks pass before the next task arrives: a random number in
/// `min..max`.
pub fn time_for_next_schedule(min_time_till_next_schedule: u64, max_time_till_next_schedule: u64) -> (r: u64)
    requires
        min_time_till_next_schedule < max_time_till_next_schedule,
    ensures
        min_time_till_next_schedule <= r < max_time_till_next_schedule,
{
    random_in_range(min_time_till_next_schedule, max_time_till_next_schedule)
}

/// `n + (n - 1) + ... + 1` is at most `n * n`.
pub proof fn lemma_work_sum_bound(n: nat)
    ensures
        work_sum(n) <= n * n,
    decreases n,
{
    if n > 0 {
        lemma_work_sum_bound((n - 1) as nat);
        assert((n - 1) * (n - 1) + n <= n * n) by (nonlinear_arith)
            requires
                n > 0,
        ;
    }
}

/// The number of tasks of one operation in a queue.
pub open spec fn single_op_tasks(q: Seq<Task>) -> nat
    decreases q.len(),
{
    if q.len() == 0 {
        0
    } else {
        single_op_tasks(q.drop_last()) + if q.last().total_operations == 1 {
            1nat
        } else {
            0
        }
    }
}

/// Taking a task out of a queue takes it out of the count of tasks of one
/// operation.
pub proof fn lemma_single_op_tasks_remove(q: Seq<Task>, i: int)
    requires
        0 <= i < q.len(),
    ensures
        single_op_tasks(q) == single_op_tasks(q.remove(i)) + if q[i].total_operations == 1 {
            1int
        } else {
            0
        },
    decreases q.len(),
{
    if i == q.len() - 1 {
        assert(q.remove(i) =~= q.drop_last());
    } else {
        let r = q.remove(i);
        lemma_single_op_tasks_remove(q.drop_last(), i);
        assert(q.drop_last().remove(i) =~= r.drop_last());
        assert(r.last() == q.last());
    }
}

/// A task arrives in a run: it is queued, one fewer task is still to come,
/// and the countdown to the next arrival starts at `delay`.
pub fn arrive(
    scheduler: &mut Scheduler,
    remaining_tasks: &mut u64,
    time_till_next_schedule: &mut u64,
    task: Task,
    delay: u64,
)
    requires
        old(scheduler).wf(),
        task.can_run(),
        count_of(old(scheduler).total_tasks_by_ops@, task.total_operations) < u64::MAX,
        *old(remaining_tasks) > 0,
    ensures
        final(scheduler).wf(),
        scheduled(*old(scheduler), *final(scheduler), task),
        *final(remaining_tasks) == *old(remaining_tasks) - 1,
        *final(time_till_next_schedule) == delay,
{
    scheduler.schedule(task);
    *remaining_tasks = *remaining_tasks - 1;
    *time_till_next_schedule = delay;
}

/// The counters of a run stay within `u64`: the clock, which ends by
/// `total_tasks * (max_time + max_ops + 1)`, times the tasks that wait on
/// it, and the result of a task of `max_ops` operations.
pub open spec fn run_fits(total_tasks: u64, max_time_till_next_schedule: u64, max_ops: u64) -> bool {
    &&& (total_tasks + 2) * (total_tasks * (max_time_till_next_schedule + max_ops + 1)) < u64::MAX
    &&& max_ops * max_ops <= u64::MAX
}

/// The least clock at which the `arrived`-th task can have arrived and its
/// arrival tick run: one tick per arrival, and `min_time` ticks between
/// arrivals.
pub open spec fn arrival_ticks(arrived: int, min_time: int) -> int {
    arrived + (arrived - 1) * min_time
}

/// Runs a scheduler until `total_tasks` random tasks have arrived and all
/// of them have completed. Tasks arrive `min_time..max_time` ticks apart
/// and have `min_ops..max_ops` operations each.
pub fn run_scheduler(
    total_tasks: u64,
    min_time_till_next_schedule: u64,
    max_time_till_next_schedule: u64,
    min_ops: u64,
    max_ops: u64,
) -> (s: Scheduler)
    requires
        min_time_till_next_schedule < max_time_till_next_schedule,
        1 <= min_ops < max_ops,
        run_fits(total_tasks, max_time_till_next_schedule, max_ops),
    ensures
        s.wf(),
        !s.busy(),
        s.pending_work() == 0,
        s.total_idle_time <= s.tick,
        // every task arrived and ran to the end; a task of one operation
        // starts and ends in one tick and is not counted as completed
        s.total_tasks_completed + count_of(s.total_tasks_by_ops@, 1) == total_tasks,
        forall|k: u64| #[trigger] s.total_tasks_by_ops@.contains_key(k) ==> min_ops <= k < max_ops,
        // the tasks of each size add up to all the tasks, every size has its
        // wait time, and the wait times of the sizes add up to the total
        total_count(s.total_tasks_by_ops@) == total_tasks,
        s.wait_time_by_ops@.dom() == s.total_tasks_by_ops@.dom(),
        total_count(s.wait_time_by_ops@) == s.total_wait_time,
        // each task after the first arrives at least `min_time` ticks after
        // the one before, and every tick of an arrival runs
        total_tasks >= 1 ==> s.tick >= total_tasks + (total_tasks - 1) * min_time_till_next_schedule,
{
    let ghost c: int = max_time_till_next_schedule + max_ops + 1;
    let ghost m0: int = total_tasks * c;
    let mut scheduler = Scheduler::new();
    let mut remaining_tasks: u64 = total_tasks;
    let mut time_till_next_schedule: u64 = 0;
    proof {
        assert(m0 >= 0) by (nonlinear_arith)
            requires
                m0 == total_tasks * c,
                total_tasks >= 0,
                c >= 0,
        ;
    }

    while remaining_tasks > 0 || scheduler.has_tasks()
        invariant
            min_time_till_next_schedule < max_time_till_next_schedule,
            1 <= min_ops < max_ops,
            run_fits(total_tasks, max_time_till_next_schedule, max_ops),
            c == max_time_till_next_schedule + max_ops + 1,
            m0 == total_tasks * c,
            m0 >= 0,
            (total_tasks + 2) * m0 < u64::MAX,
            remaining_tasks <= total_tasks,
            time_till_next_schedule < max_time_till_next_schedule,
            scheduler.wf(),
            scheduler.tick + remaining_tasks * c + time_till_next_schedule + scheduler.pending_work()
                <= m0,
            scheduler.queue@.len() <= total_tasks - remaining_tasks,
            scheduler.total_wait_time <= (total_tasks - remaining_tasks - scheduler.queue@.len())
                * scheduler.tick,
            forall|k: u64| #[trigger]
                scheduler.total_tasks_by_ops@.contains_key(k) ==> scheduler.total_tasks_by_ops@[k]
                    <= total_tasks - remaining_tasks,
            forall|k: u64| #[trigger]
                scheduler.total_tasks_by_ops@.contains_key(k) ==> min_ops <= k < max_ops,
            forall|i: int|
                0 <= i < scheduler.queue@.len() ==> (#[trigger] scheduler.queue@[i]).operations_remaining
                    == scheduler.queue@[i].total_operations,
            scheduler.total_tasks_completed + count_of(scheduler.total_tasks_by_ops@, 1) + scheduler.queue@.len()
                + (if scheduler.current_task is Some {
                1int
            } else {
                0
            }) == total_tasks - remaining_tasks + single_op_tasks(scheduler.queue@),
            stats_kept(&scheduler, total_tasks - remaining_tasks),
            remaining_tasks == total_tasks ==> time_till_next_schedule == 0,
            remaining_tasks < total_tasks ==> scheduler.tick >= arrival_ticks(
                total_tasks - remaining_tasks,
                min_time_till_next_schedule as int,
            ),
            remaining_tasks < total_tasks && remaining_tasks > 0 ==> scheduler.tick + time_till_next_schedule
                >= arrival_ticks(total_tasks - remaining_tasks, min_time_till_next_schedule as int)
                + min_time_till_next_schedule,
        decreases remaining_tasks * c + time_till_next_schedule + scheduler.pending_work(),
    {
        let ghost measure0: int = remaining_tasks * c + time_till_next_schedule
            + scheduler.pending_work();
        let ghost tick0: int = scheduler.tick as int;
        proof {
            lemma_busy_has_work(&scheduler);
            assert(remaining_tasks > 0 ==> remaining_tasks * c >= c) by (nonlinear_arith)
                requires
                    c > 0,
            ;
        }
        if remaining_tasks > 0 {
            if time_till_next_schedule == 0 {
                let task = generate_task(min_ops, max_ops);
                proof {
                    lemma_work_sum_bound(task.operations_remaining as nat);
                    assert(task.operations_remaining * task.operations_remaining <= max_ops * max_ops)
                        by (nonlinear_arith)
                        requires
                            0 <= task.operations_remaining <= max_ops,
                    ;
                    assert(count_of(scheduler.total_tasks_by_ops@, task.total_operations)
                        <= total_tasks - remaining_tasks);
                }
                let delay = time_for_next_schedule(min_time_till_next_schedule, max_time_till_next_schedule);
                let ghost q_before = scheduler.queue@;
                let ghost before_schedule = scheduler;
                let ghost r0 = remaining_tasks;
                proof {
                    let a = total_tasks - r0;
                    let m = min_time_till_next_schedule as int;
                    assert(arrival_ticks(a + 1, m) == arrival_ticks(a, m) + m + 1) by (nonlinear_arith);
                    assert(arrival_ticks(1, m) == 1) by (nonlinear_arith);
                }
                arrive(&mut scheduler, &mut remaining_tasks, &mut time_till_next_schedule, task, delay);
                proof {
                    lemma_schedule_stats(&before_schedule, &scheduler, task, total_tasks - r0);
                    assert(scheduler.queue@.drop_last() =~= q_before);
                    assert forall|i: int| 0 <= i < scheduler.queue@.len() implies (
                    #[trigger] scheduler.queue@[i]).operations_remaining == scheduler.queue@[i].total_operations by {
                        if i < q_before.len() {
                            assert(scheduler.queue@[i] == q_before[i]);
                        }
                    }
                    assert((r0 - 1) * c == r0 * c - c) by (nonlinear_arith);
                    assert forall|k: u64| #[trigger]
                        scheduler.total_tasks_by_ops@.contains_key(k) implies scheduler.total_tasks_by_ops@[k]
                        <= total_tasks - remaining_tasks by {}
                    assert forall|k: u64| #[trigger]
                        scheduler.total_tasks_by_ops@.contains_key(k) implies min_ops <= k < max_ops by {}
                }
            } else {
                time_till_next_schedule = time_till_next_schedule - 1;
            }
        }
        proof {
            lemma_busy_has_work(&scheduler);
            assert(scheduler.total_wait_time + scheduler.tick <= (total_tasks + 1) * scheduler.tick)
                by (nonlinear_arith)
                requires
                    scheduler.total_wait_time <= (total_tasks - remaining_tasks
                        - scheduler.queue@.len()) * scheduler.tick,
                    0 <= total_tasks - remaining_tasks - scheduler.queue@.len() <= total_tasks,
                    0 <= scheduler.tick,
            ;
            assert((total_tasks + 1) * scheduler.tick <= (total_tasks + 1) * m0) by (nonlinear_arith)
                requires
                    scheduler.tick <= m0,
                    total_tasks >= 0,
                    0 <= scheduler.tick,
            ;
            assert((total_tasks + 1) * m0 <= (total_tasks + 2) * m0) by (nonlinear_arith)
                requires
                    m0 >= 0,
            ;
        }
        let ghost wait0: int = scheduler.total_wait_time as int;
        let ghost q0len: int = scheduler.queue@.len() as int;
        let ghost idle0: bool = scheduler.current_task is None;
        let ghost before = scheduler;
        scheduler.tick();
        proof {
            lemma_tick_counts(&before, &scheduler, total_tasks - remaining_tasks);
            lemma_tick_stats(&before, &scheduler, total_tasks - remaining_tasks);
            let t1 = scheduler.tick as int;
            let s0 = total_tasks - remaining_tasks - q0len;
            let s1 = total_tasks - remaining_tasks - scheduler.queue@.len();
            assert(s1 == s0 || (s1 == s0 + 1 && scheduler.total_wait_time <= wait0 + t1));
            assert(s1 == s0 ==> scheduler.total_wait_time == wait0);
            assert(scheduler.total_wait_time <= s1 * t1) by (nonlinear_arith)
                requires
                    wait0 <= s0 * (t1 - 1),
                    s1 == s0 || (s1 == s0 + 1 && scheduler.total_wait_time <= wait0 + t1),
                    s1 == s0 ==> scheduler.total_wait_time == wait0,
                    t1 >= 1,
                    s0 >= 0,
            ;
        }
    }
    proof {
        lemma_busy_has_work(&scheduler);
    }
    scheduler
}

/// A tick keeps the count of tasks that arrived: completed, of one
/// operation, queued or running.
proof fn lemma_tick_counts(s0: &Scheduler, s1: &Scheduler, arrived: int)
    requires
        s0.wf(),
        forall|i: int| 0 <= i < s0.queue@.len() ==> (#[trigger] s0.queue@[i]).operations_remaining
            == s0.queue@[i].total_operations,
        s0.total_tasks_completed + count_of(s0.total_tasks_by_ops@, 1) + s0.queue@.len() + (if s0.current_task is Some {
            1int
        } else {
            0
        }) == arrived + single_op_tasks(s0.queue@),
        s1.total_tasks_by_ops@ == s0.total_tasks_by_ops@,
        s0.current_task matches Some(t) ==> {
            &&& s1.queue@ == s0.queue@
            &&& s1.current_task == if t.stepped().operations_remaining == 0 {
                None
            } else {
                Some(t.stepped())
            }
            &&& s1.total_tasks_completed == s0.total_tasks_completed + if t.stepped().operations_remaining == 0 {
                1int
            } else {
                0
            }
        },
        s0.current_task is None && s0.queue@.len() > 0 ==> {
            let q = s0.queue@;
            let i = next_index(q);
            let t = q[i];
            &&& 0 <= i < q.len()
            &&& s1.queue@ == q.remove(i)
            &&& s1.current_task == if t.stepped().operations_remaining == 0 {
                None
            } else {
                Some(t.stepped())
            }
            &&& s1.total_tasks_completed == s0.total_tasks_completed
        },
        !s0.busy() ==> {
            &&& s1.queue@ == s0.queue@
            &&& s1.current_task is None
            &&& s1.total_tasks_completed == s0.total_tasks_completed
        },
    ensures
        forall|i: int| 0 <= i < s1.queue@.len() ==> (#[trigger] s1.queue@[i]).operations_remaining
            == s1.queue@[i].total_operations,
        s1.total_tasks_completed + count_of(s1.total_tasks_by_ops@, 1) + s1.queue@.len() + (if s1.current_task is Some {
            1int
        } else {
            0
        }) == arrived + single_op_tasks(s1.queue@),
{
    if s0.current_task is None && s0.queue@.len() > 0 {
        let q = s0.queue@;
        let i = next_index(q);
        lemma_single_op_tasks_remove(q, i);
        assert(q[i].operations_remaining == q[i].total_operations);
        assert forall|j: int| 0 <= j < s1.queue@.len() implies (#[trigger] s1.queue@[j]).operations_remaining
            == s1.queue@[j].total_operations by {
            if j < i {
                assert(s1.queue@[j] == q[j]);
            } else {
                assert(s1.queue@[j] == q[j + 1]);
            }
        }
    }
}

/// The statistics of the tasks that have arrived are kept whole: the
/// counts of the sizes add up to them, the wait times add up to the total,
/// every size with a wait time has arrived, and every size that arrived has
/// a wait time or a task still in the queue.
pub open spec fn stats_kept(s: &Scheduler, arrived: int) -> bool {
    &&& s.total_tasks_by_ops@.dom().finite()
    &&& s.wait_time_by_ops@.dom().finite()
    &&& total_count(s.total_tasks_by_ops@) == arrived
    &&& total_count(s.wait_time_by_ops@) == s.total_wait_time
    &&& forall|k: u64| #[trigger] s.wait_time_by_ops@.contains_key(k) ==> s.total_tasks_by_ops@.contains_key(k)
    &&& forall|i: int|
        0 <= i < s.queue@.len() ==> s.total_tasks_by_ops@.contains_key((#[trigger] s.queue@[i]).total_operations)
    &&& forall|k: u64|
        #[trigger] s.total_tasks_by_ops@.contains_key(k) ==> s.wait_time_by_ops@.contains_key(k) || exists|i: int|
            0 <= i < s.queue@.len() && (#[trigger] s.queue@[i]).total_operations == k
}

/// Queuing a task keeps the statistics whole, with one more task.
proof fn lemma_schedule_stats(s0: &Scheduler, s1: &Scheduler, task: Task, arrived: int)
    requires
        stats_kept(s0, arrived),
        s1.queue@ == s0.queue@.push(task),
        s1.total_tasks_by_ops@ == s0.total_tasks_by_ops@.insert(
            task.total_operations,
            (count_of(s0.total_tasks_by_ops@, task.total_operations) + 1) as u64,
        ),
        count_of(s0.total_tasks_by_ops@, task.total_operations) < u64::MAX,
        s1.wait_time_by_ops@ == s0.wait_time_by_ops@,
        s1.total_wait_time == s0.total_wait_time,
    ensures
        stats_kept(s1, arrived + 1),
{
    lemma_total_count_insert(
        s0.total_tasks_by_ops@,
        task.total_operations,
        (count_of(s0.total_tasks_by_ops@, task.total_operations) + 1) as u64,
    );
    let q0 = s0.queue@;
    let q1 = s1.queue@;
    assert(q1[q0.len() as int] == task);
    assert forall|i: int| 0 <= i < q1.len() implies s1.total_tasks_by_ops@.contains_key(
        (#[trigger] q1[i]).total_operations,
    ) by {
        if i < q0.len() {
            assert(q1[i] == q0[i]);
        }
    }
    assert forall|k: u64| #[trigger] s1.total_tasks_by_ops@.contains_key(k) implies s1.wait_time_by_ops@.contains_key(k)
        || exists|i: int| 0 <= i < q1.len() && (#[trigger] q1[i]).total_operations == k by {
        if k == task.total_operations {
            assert(q1[q0.len() as int].total_operations == k);
        } else if !s1.wait_time_by_ops@.contains_key(k) {
            let i = choose|i: int| 0 <= i < q0.len() && (#[trigger] q0[i]).total_operations == k;
            assert(q1[i] == q0[i]);
        }
    }
}

/// A tick keeps the statistics whole.
proof fn lemma_tick_stats(s0: &Scheduler, s1: &Scheduler, arrived: int)
    requires
        s0.wf(),
        stats_kept(s0, arrived),
        s1.total_tasks_by_ops@ == s0.total_tasks_by_ops@,
        s0.current_task matches Some(t) ==> {
            &&& s1.queue@ == s0.queue@
            &&& s1.total_wait_time == s0.total_wait_time
            &&& s1.wait_time_by_ops@ == s0.wait_time_by_ops@
        },
        s0.current_task is None && s0.queue@.len() > 0 ==> {
            let q = s0.queue@;
            let i = next_index(q);
            let t = q[i];
            let wait = s0.tick + 1 - s0.schedule_time@[t.id];
            &&& 0 <= i < q.len()
            &&& s1.queue@ == q.remove(i)
            &&& s1.total_wait_time == s0.total_wait_time + wait
            &&& s1.wait_time_by_ops@ == s0.wait_time_by_ops@.insert(
                t.total_operations,
                (count_of(s0.wait_time_by_ops@, t.total_operations) + wait) as u64,
            )
        },
        !s0.busy() ==> {
            &&& s1.queue@ == s0.queue@
            &&& s1.total_wait_time == s0.total_wait_time
            &&& s1.wait_time_by_ops@ == s0.wait_time_by_ops@
        },
    ensures
        stats_kept(s1, arrived),
{
    if s0.current_task is None && s0.queue@.len() > 0 {
        let q = s0.queue@;
        let i = next_index(q);
        let t = q[i];
        let wait = s0.tick + 1 - s0.schedule_time@[t.id];
        let k0 = t.total_operations;
        let w0 = s0.wait_time_by_ops@;
        assert(count_of(w0, k0) <= s0.total_wait_time);
        assert(count_of(w0, k0) + wait <= s1.total_wait_time);
        lemma_total_count_insert(w0, k0, (count_of(w0, k0) + wait) as u64);
        let q1 = s1.queue@;
        assert(s0.total_tasks_by_ops@.contains_key(q[i].total_operations));
        assert forall|j: int| 0 <= j < q1.len() implies s1.total_tasks_by_ops@.contains_key(
            (#[trigger] q1[j]).total_operations,
        ) by {
            if j < i {
                assert(q1[j] == q[j]);
            } else {
                assert(q1[j] == q[j + 1]);
            }
        }
        assert forall|k: u64| #[trigger] s1.total_tasks_by_ops@.contains_key(k) implies s1.wait_time_by_ops@.contains_key(
            k,
        ) || exists|j: int| 0 <= j < q1.len() && (#[trigger] q1[j]).total_operations == k by {
            if k != k0 && !s0.wait_time_by_ops@.contains_key(k) {
                let j = choose|j: int| 0 <= j < q.len() && (#[trigger] q[j]).total_operations == k;
                assert(j != i);
                if j < i {
                    assert(q1[j] == q[j]);
                } else {
                    assert(q1[j - 1] == q[j]);
                }
            }
        }
    }
}

} // verus!
