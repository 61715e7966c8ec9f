use vstd::prelude::*;

verus! {

/// The total of `n + (n - 1) + ... + 1`: what stepping a task with `n`
/// operations left adds to its result before it completes.
pub open spec fn work_sum(n: nat) -> nat
    decreases n,
{
    if n == 0 {
        0
    } else {
        n + work_sum((n - 1) as nat)
    }
}

/// A unit of work for the scheduler: it runs for `total_operations` ticks
/// and accumulates the count of remaining operations into `result`.
#[derive(Clone, PartialEq, Eq, Structural, Debug)]
pub struct Task {
    pub id: u16,
    pub total_operations: u64,
    pub operations_remaining: u64,
    pub result: u64,
}

impl Task {
    /// A task can run to completion without its result overflowing.
    pub open spec fn can_run(self) -> bool {
        &&& self.operations_remaining > 0
        &&& self.result + work_sum(self.operations_remaining as nat) <= u64::MAX
    }

    /// The task as it is after one step.
    pub open spec fn stepped(self) -> Task {
        Task {
            id: self.id,
            total_operations: self.total_operations,
            operations_remaining: (self.operations_remaining - 1) as u64,
            result: (self.result + self.operations_remaining) as u64,
        }
    }

    pub fn new(id: u16, operations: u64) -> (t: Self)
        ensures
            t == (Task { id, total_operations: operations, operations_remaining: operations, result: 0 }),
    {
        Task { id, total_operations: operations, operations_remaining: operations, result: 0 }
    }

    /// Performs one operation.
    pub fn step(&mut self)
        requires
            old(self).operations_remaining > 0,
            old(self).result + old(self).operations_remaining <= u64::MAX,
        ensures
            *final(self) == old(self).stepped(),
    {
        self.result = self.result + self.operations_remaining;
        self.operations_remaining = self.operations_remaining - 1;
    }

    pub fn is_completed(&self) -> (r: bool)
        ensures
            r == (self.operations_remaining == 0),
    {
        self.operations_remaining == 0
    }

    /// The order in which the scheduler prefers tasks: the one with fewer
    /// operations remaining comes first (compares as greater).
    pub fn priority_order(&self, other: &Task) -> (o: core::cmp::Ordering)
        ensures
            (o is Greater) == (self.operations_remaining < other.operations_remaining),
            (o is Less) == (self.operations_remaining > other.operations_remaining),
            (o is Equal) == (self.operations_remaining == other.operations_remaining),
    {
        if self.operations_remaining < other.operations_remaining {
            core::cmp::Ordering::Greater
        } else if self.operations_remaining > other.operations_remaining {
            core::cmp::Ordering::Less
        } else {
            core::cmp::Ordering::Equal
        }
    }
}

/// A step keeps a runnable task able to finish: what it adds to the result
/// is taken off the work still to come.
pub proof fn lemma_step_keeps_runnable(t: Task)
    requires
        t.can_run(),
    ensures
        t.result + t.operations_remaining <= u64::MAX,
        t.stepped().result + work_sum(t.stepped().operations_remaining as nat) == t.result
            + work_sum(t.operations_remaining as nat),
        t.stepped().operations_remaining > 0 ==> t.stepped().can_run(),
{
    assert(work_sum(t.operations_remaining as nat) == t.operations_remaining + work_sum(
        (t.operations_remaining - 1) as nat,
    ));
}

/// `n + (n - 1) + ... + 1` is the triangular number `n (n + 1) / 2`.
pub proof fn lemma_work_sum_triangle(n: nat)
    ensures
        2 * work_sum(n) == n * (n + 1),
    decreases n,
{
    if n > 0 {
        lemma_work_sum_triangle((n - 1) as nat);
        let m = (n - 1) as nat;
        assert(work_sum(n) == n + work_sum(m));
        assert(2 * work_sum(n) == n * (n + 1)) by (nonlinear_arith)
            requires
                2 * work_sum(m) == m * (m + 1),
                work_sum(n) == n + work_sum(m),
                m + 1 == n,
        ;
    } else {
        assert(work_sum(0) == 0);
        assert(n * (n + 1) == 0) by (nonlinear_arith)
            requires
                n == 0,
        ;
    }
}

/// The task after `k` steps.
pub open spec fn steps(t: Task, k: nat) -> Task
    decreases k,
{
    if k == 0 {
        t
    } else {
        steps(t, (k - 1) as nat).stepped()
    }
}

/// Each step moves the count of remaining operations into the result, so
/// the result plus what is still to come stays the same; a new task of `n`
/// operations that runs all its steps completes with the result
/// `n (n + 1) / 2`.
pub proof fn law_steps_add_up(t: Task, k: nat)
    requires
        k <= t.operations_remaining,
        t.result + work_sum(t.operations_remaining as nat) <= u64::MAX,
    ensures
        steps(t, k).operations_remaining == t.operations_remaining - k,
        steps(t, k).result + work_sum(steps(t, k).operations_remaining as nat) == t.result + work_sum(
            t.operations_remaining as nat,
        ),
        steps(t, k).id == t.id,
        steps(t, k).total_operations == t.total_operations,
        k == t.operations_remaining && t.result == 0 ==> {
            &&& steps(t, k).operations_remaining == 0
            &&& 2 * steps(t, k).result == t.operations_remaining * (t.operations_remaining + 1)
        },
    decreases k,
{
    lemma_work_sum_triangle(t.operations_remaining as nat);
    if k > 0 {
        law_steps_add_up(t, (k - 1) as nat);
        let s = steps(t, (k - 1) as nat);
        assert(s.operations_remaining > 0);
        assert(work_sum(s.operations_remaining as nat) == s.operations_remaining + work_sum(
            (s.operations_remaining - 1) as nat,
        ));
    }
}

} // verus!
