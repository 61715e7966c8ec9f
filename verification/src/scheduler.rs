use std::collections::HashMap;
use vstd::prelude::*;

use crate::task::{Task, work_sum, lemma_step_keeps_runnable};

verus! {

/// The operations left in all the tasks of a queue.
pub open spec fn queue_work(q: Seq<Task>) -> nat
    decreases q.len(),
{
    if q.len() == 0 {
        0
    } else {
        queue_work(q.drop_last()) + q.last().operations_remaining as nat
    }
}

/// `i` is the position of the task the scheduler runs next: one with the
/// fewest operations remaining, the earliest such in the queue.
pub open spec fn is_next_index(q: Seq<Task>, i: int) -> bool {
    &&& 0 <= i < q.len()
    &&& forall|j: int| 0 <= j < q.len() ==> q[i].operations_remaining <= #[trigger] q[j].operations_remaining
    &&& forall|j: int| 0 <= j < i ==> q[i].operations_remaining < #[trigger] q[j].operations_remaining
}

/// The position of the task the scheduler runs next.
pub open spec fn next_index(q: Seq<Task>) -> int {
    choose|i: int| is_next_index(q, i)
}

/// The sum of the counts that a map keeps for the keys in `keys`.
pub open spec fn sum_over(m: Map<u64, u64>, keys: Set<u64>) -> int
    decreases keys.len(),
    when keys.finite()
{
    if keys.len() == 0 {
        0
    } else {
        let k = keys.choose();
        m[k] + sum_over(m, keys.remove(k))
    }
}

/// The sum of all the counts that a map keeps.
pub open spec fn total_count(m: Map<u64, u64>) -> int {
    sum_over(m, m.dom())
}

/// Any key of a set can be taken out of the sum first.
pub proof fn lemma_sum_over_remove(m: Map<u64, u64>, keys: Set<u64>, x: u64)
    requires
        keys.finite(),
        keys.contains(x),
    ensures
        sum_over(m, keys) == m[x] + sum_over(m, keys.remove(x)),
    decreases keys.len(),
{
    let k = keys.choose();
    assert(keys.len() != 0);
    if k != x {
        lemma_sum_over_remove(m, keys.remove(k), x);
        lemma_sum_over_remove(m, keys.remove(x), k);
        assert(keys.remove(k).remove(x) =~= keys.remove(x).remove(k));
    }
}

/// Maps that agree on a set of keys have the same sum over it.
pub proof fn lemma_sum_over_agree(m1: Map<u64, u64>, m2: Map<u64, u64>, keys: Set<u64>)
    requires
        keys.finite(),
        forall|k: u64| keys.contains(k) ==> m1[k] == m2[k],
    ensures
        sum_over(m1, keys) == sum_over(m2, keys),
    decreases keys.len(),
{
    if keys.len() != 0 {
        let k = keys.choose();
        lemma_sum_over_agree(m1, m2, keys.remove(k));
    }
}

/// Setting the count of one key changes the total by the difference.
pub proof fn lemma_total_count_insert(m: Map<u64, u64>, k: u64, v: u64)
    requires
        m.dom().finite(),
    ensures
        m.insert(k, v).dom().finite(),
        total_count(m.insert(k, v)) == total_count(m) - count_of(m, k) + v,
{
    let m2 = m.insert(k, v);
    let d = m.dom();
    let d2 = m2.dom();
    assert(d2 =~= d.insert(k));
    lemma_sum_over_remove(m2, d2, k);
    assert(d2.remove(k) =~= d.remove(k));
    lemma_sum_over_agree(m2, m, d.remove(k));
    if d.contains(k) {
        lemma_sum_over_remove(m, d, k);
    } else {
        assert(d.remove(k) =~= d);
    }
}

/// A count kept per key in a map, zero where the key is absent.
pub open spec fn count_of(m: Map<u64, u64>, k: u64) -> int {
    if m.contains_key(k) {
        m[k] as int
    } else {
        0
    }
}

/// A non-preemptive scheduler that always starts the queued task with the
/// fewest operations remaining.
pub struct Scheduler {
    pub current_task: Option<Task>,
    pub queue: Vec<Task>,
    pub tick: u64,
    pub schedule_time: HashMap<u16, u64>,
    pub total_wait_time: u64,
    pub total_tasks_completed: u64,
    pub wait_time_by_ops: HashMap<u64, u64>,
    pub total_tasks_by_ops: HashMap<u64, u64>,
    pub total_idle_time: u64,
}

/// `b` is `a` with `task` queued: its schedule time is the current tick,
/// it counts among the tasks of its size, and nothing else changed.
pub open spec fn scheduled(a: Scheduler, b: Scheduler, task: Task) -> bool {
    &&& b.queue@ == a.queue@.push(task)
    &&& b.schedule_time@ == a.schedule_time@.insert(task.id, a.tick)
    &&& b.total_tasks_by_ops@ == a.total_tasks_by_ops@.insert(
        task.total_operations,
        (count_of(a.total_tasks_by_ops@, task.total_operations) + 1) as u64,
    )
    &&& b.current_task == a.current_task
    &&& b.tick == a.tick
    &&& b.total_wait_time == a.total_wait_time
    &&& b.total_tasks_completed == a.total_tasks_completed
    &&& b.wait_time_by_ops@ == a.wait_time_by_ops@
    &&& b.total_idle_time == a.total_idle_time
    &&& b.pending_work() == a.pending_work() + task.operations_remaining
}

impl Scheduler {
    /// What the scheduler keeps true between calls: every task it holds
    /// can run to the end, each queued task has a schedule time that is
    /// not in the future, and the counters stay within the clock.
    pub open spec fn wf(&self) -> bool {
        &&& forall|i: int| 0 <= i < self.queue@.len() ==> (#[trigger] self.queue@[i]).can_run()
        &&& forall|i: int|
            0 <= i < self.queue@.len() ==> self.schedule_time@.contains_key(
                (#[trigger] self.queue@[i]).id,
            )
        &&& forall|id: u16| #[trigger]
            self.schedule_time@.contains_key(id) ==> self.schedule_time@[id] <= self.tick
        &&& forall|k: u64| #[trigger]
            self.wait_time_by_ops@.contains_key(k) ==> self.wait_time_by_ops@[k]
                <= self.total_wait_time
        &&& (self.current_task matches Some(t) ==> t.can_run())
        &&& self.total_tasks_completed <= self.tick
        &&& self.total_idle_time <= self.tick
    }

    /// Whether there is a task running or waiting.
    pub open spec fn busy(&self) -> bool {
        self.queue@.len() > 0 || self.current_task.is_some()
    }

    /// The next tick starts a queued task: none is running and the queue
    /// holds one.
    pub open spec fn starts_next(&self) -> bool {
        self.current_task is None && self.queue@.len() > 0
    }

    /// How long the task that the next tick starts has waited by then.
    pub open spec fn next_wait(&self) -> int {
        self.tick + 1 - self.schedule_time@[self.queue@[next_index(self.queue@)].id]
    }

    /// The operations left in every task the scheduler holds.
    pub open spec fn pending_work(&self) -> nat {
        queue_work(self.queue@) + match self.current_task {
            Some(t) => t.operations_remaining as nat,
            None => 0,
        }
    }

    pub fn new() -> (s: Self)
        ensures
            s.wf(),
            s.current_task.is_none(),
            s.queue@.len() == 0,
            s.tick == 0,
            s.schedule_time@ == Map::<u16, u64>::empty(),
            s.total_wait_time == 0,
            s.total_tasks_completed == 0,
            s.wait_time_by_ops@ == Map::<u64, u64>::empty(),
            s.total_tasks_by_ops@ == Map::<u64, u64>::empty(),
            s.total_idle_time == 0,
    {
        Scheduler {
            current_task: None,
            queue: Vec::new(),
            tick: 0,
            schedule_time: HashMap::new(),
            total_wait_time: 0,
            total_tasks_completed: 0,
            wait_time_by_ops: HashMap::new(),
            total_tasks_by_ops: HashMap::new(),
            total_idle_time: 0,
        }
    }

    /// Queues a task, recording when it was scheduled and counting it
    /// among the tasks of its size.
    pub fn schedule(&mut self, task: Task)
        requires
            old(self).wf(),
            task.can_run(),
            count_of(old(self).total_tasks_by_ops@, task.total_operations) < u64::MAX,
        ensures
            final(self).wf(),
            scheduled(*old(self), *final(self), task),
    {
        self.schedule_time.insert(task.id, self.tick);
        let count: u64 = match self.total_tasks_by_ops.get(&task.total_operations) {
            Some(c) => *c,
            None => 0,
        };
        self.total_tasks_by_ops.insert(task.total_operations, count + 1);
        let ghost q0 = self.queue@;
        self.queue.push(task);
        proof {
            assert(self.queue@.drop_last() =~= q0);
            assert forall|i: int| 0 <= i < self.queue@.len() implies self.schedule_time@.contains_key(
                (#[trigger] self.queue@[i]).id,
            ) by {
                if i < q0.len() {
                    assert(self.queue@[i] == q0[i]);
                }
            }
        }
    }

    /// Advances the clock by one: runs the current task one step, or starts
    /// the queued task with the fewest operations remaining, or counts an
    /// idle tick.
    pub fn tick(&mut self)
        requires
            old(self).wf(),
            old(self).tick < u64::MAX,
            old(self).starts_next() ==> old(self).total_wait_time + old(self).next_wait() <= u64::MAX,
        ensures
            final(self).wf(),
            final(self).tick == old(self).tick + 1,
            ticks_once(*old(self), *final(self)),
            final(self).schedule_time@ == old(self).schedule_time@,
            final(self).total_tasks_by_ops@ == old(self).total_tasks_by_ops@,
            final(self).pending_work() == if old(self).busy() {
                old(self).pending_work() - 1
            } else {
                old(self).pending_work() as int
            },
            // a running task keeps the processor until it completes
            old(self).current_task matches Some(t) ==> {
                &&& final(self).queue@ == old(self).queue@
                &&& final(self).current_task == if t.stepped().operations_remaining == 0 {
                    None
                } else {
                    Some(t.stepped())
                }
                &&& final(self).total_tasks_completed == old(self).total_tasks_completed + if t.stepped().operations_remaining == 0 {
                    1int
                } else {
                    0
                }
                &&& final(self).total_wait_time == old(self).total_wait_time
                &&& final(self).wait_time_by_ops@ == old(self).wait_time_by_ops@
                &&& final(self).total_idle_time == old(self).total_idle_time
            },
            // otherwise the shortest queued task starts
            old(self).current_task is None && old(self).queue@.len() > 0 ==> {
                let q = old(self).queue@;
                let i = next_index(q);
                let t = q[i];
                let wait = old(self).tick + 1 - old(self).schedule_time@[t.id];
                &&& is_next_index(q, i)
                &&& final(self).queue@ == q.remove(i)
                &&& final(self).current_task == if t.stepped().operations_remaining == 0 {
                    None
                } else {
                    Some(t.stepped())
                }
                &&& final(self).total_wait_time == old(self).total_wait_time + wait
                &&& final(self).wait_time_by_ops@ == old(self).wait_time_by_ops@.insert(
                    t.total_operations,
                    (count_of(old(self).wait_time_by_ops@, t.total_operations) + wait) as u64,
                )
                &&& final(self).total_tasks_completed == old(self).total_tasks_completed
                &&& final(self).total_idle_time == old(self).total_idle_time
            },
            // with nothing to run the tick is idle
            !old(self).busy() ==> {
                &&& final(self).queue@ == old(self).queue@
                &&& final(self).current_task is None
                &&& final(self).total_idle_time == old(self).total_idle_time + 1
                &&& final(self).total_wait_time == old(self).total_wait_time
                &&& final(self).wait_time_by_ops@ == old(self).wait_time_by_ops@
                &&& final(self).total_tasks_completed == old(self).total_tasks_completed
            },
    {
        self.tick = self.tick + 1;

        if self.current_task.is_some() {
            let mut task = self.current_task.take().unwrap();
            proof {
                lemma_step_keeps_runnable(task);
            }
            task.step();
            if task.is_completed() {
                self.total_tasks_completed = self.total_tasks_completed + 1;
            } else {
                self.current_task = Some(task);
            }
            return;
        }

        if self.queue.len() > 0 {
            let ghost q = self.queue@;
            let i = next_task_index(&self.queue);
            proof {
                lemma_next_index_unique(q, i as int);
                lemma_queue_work_remove(q, i as int);
            }
            let mut task = self.queue.remove(i);
            let scheduled: u64 = match self.schedule_time.get(&task.id) {
                Some(t) => *t,
                None => 0,
            };
            let wait_time = self.tick - scheduled;
            self.total_wait_time = self.total_wait_time + wait_time;
            let previous: u64 = match self.wait_time_by_ops.get(&task.total_operations) {
                Some(w) => *w,
                None => 0,
            };
            self.wait_time_by_ops.insert(task.total_operations, previous + wait_time);
            proof {
                lemma_step_keeps_runnable(task);
            }
            task.step();
            if !task.is_completed() {
                self.current_task = Some(task);
            }
            proof {
                assert forall|j: int| 0 <= j < self.queue@.len() implies (#[trigger] self.queue@[j]).can_run()
                    && self.schedule_time@.contains_key(self.queue@[j].id) by {
                    if j < i {
                        assert(self.queue@[j] == q[j]);
                    } else {
                        assert(self.queue@[j] == q[j + 1]);
                    }
                }
            }
        } else {
            self.total_idle_time = self.total_idle_time + 1;
        }
    }

    pub fn has_tasks(&self) -> (r: bool)
        ensures
            r == self.busy(),
    {
        self.queue.len() > 0 || self.current_task.is_some()
    }
}

/// Finds the position of the task to run next.
fn next_task_index(queue: &Vec<Task>) -> (i: usize)
    requires
        queue@.len() > 0,
    ensures
        is_next_index(queue@, i as int),
{
    let mut best: usize = 0;
    let mut j: usize = 1;
    while j < queue.len()
        invariant
            0 <= best < j <= queue@.len(),
            forall|k: int| 0 <= k < j ==> queue@[best as int].operations_remaining <= #[trigger] queue@[k].operations_remaining,
            forall|k: int| 0 <= k < best ==> queue@[best as int].operations_remaining < #[trigger] queue@[k].operations_remaining,
        decreases queue@.len() - j,
    {
        if queue[j].operations_remaining < queue[best].operations_remaining {
            best = j;
        }
        j = j + 1;
    }
    best
}

/// A well-formed scheduler that holds a task has work left.
pub proof fn lemma_busy_has_work(s: &Scheduler)
    requires
        s.wf(),
    ensures
        s.busy() ==> s.pending_work() > 0,
{
    if s.queue@.len() > 0 {
        let q = s.queue@;
        assert(q.last() == q[q.len() - 1]);
        assert(q[q.len() - 1].can_run());
    }
}

/// One tick took the scheduler from `a` to `b`: the clock moved by one,
/// and the tick either ran one pending operation or, with nothing to run,
/// was idle.
pub open spec fn ticks_once(a: Scheduler, b: Scheduler) -> bool {
    &&& b.wf()
    &&& b.tick == a.tick + 1
    &&& b.pending_work() == if a.busy() {
        a.pending_work() - 1
    } else {
        a.pending_work() as int
    }
    &&& b.total_idle_time == a.total_idle_time + if a.busy() {
        0int
    } else {
        1
    }
}

proof fn lemma_ticks_drain_upto(runs: Seq<Scheduler>, k: int)
    requires
        runs.len() >= 1,
        runs[0].wf(),
        forall|i: int| 0 <= i < runs.len() - 1 ==> #[trigger] ticks_once(runs[i], runs[i + 1]),
        runs.len() - 1 == runs[0].pending_work(),
        0 <= k < runs.len(),
    ensures
        runs[k].wf(),
        runs[k].pending_work() == runs[0].pending_work() - k,
        runs[k].tick == runs[0].tick + k,
        runs[k].total_idle_time == runs[0].total_idle_time,
    decreases k,
{
    if k > 0 {
        lemma_ticks_drain_upto(runs, k - 1);
        let j = k - 1;
        assert(ticks_once(runs[j], runs[j + 1]));
        assert(runs[j].busy());
    }
}

/// Ticks with nothing scheduled in between drain the pending work: from
/// `n` operations pending, `n` ticks leave nothing to run, move the clock
/// by `n`, and none of them is idle.
pub proof fn law_ticks_drain_pending_work(runs: Seq<Scheduler>)
    requires
        runs.len() >= 1,
        runs[0].wf(),
        forall|i: int| 0 <= i < runs.len() - 1 ==> #[trigger] ticks_once(runs[i], runs[i + 1]),
        runs.len() - 1 == runs[0].pending_work(),
    ensures
        runs.last().pending_work() == 0,
        !runs.last().busy(),
        runs.last().tick == runs[0].tick + runs[0].pending_work(),
        runs.last().total_idle_time == runs[0].total_idle_time,
{
    lemma_ticks_drain_upto(runs, runs.len() - 1);
    lemma_busy_has_work(&runs[runs.len() - 1]);
}

/// At most one position of a queue is the next one.
pub proof fn lemma_next_index_unique(q: Seq<Task>, i: int)
    requires
        is_next_index(q, i),
    ensures
        next_index(q) == i,
{
    let k = next_index(q);
    assert(is_next_index(q, k));
    if k < i {
        assert(q[i].operations_remaining < q[k].operations_remaining);
    } else if i < k {
        assert(q[k].operations_remaining < q[i].operations_remaining);
    }
}

/// Taking a task out of a queue takes its operations out of the queue's work.
pub proof fn lemma_queue_work_remove(q: Seq<Task>, i: int)
    requires
        0 <= i < q.len(),
    ensures
        queue_work(q) == queue_work(q.remove(i)) + q[i].operations_remaining,
    decreases q.len(),
{
    if i == q.len() - 1 {
        assert(q.remove(i) =~= q.drop_last());
    } else {
        let r = q.remove(i);
        lemma_queue_work_remove(q.drop_last(), i);
        assert(q.drop_last().remove(i) =~= r.drop_last());
        assert(r.last() == q.last());
    }
}

} // verus!
