use vstd::prelude::*;

use crate::hungarian::in_i32;
use crate::matching::matrix_view;

verus! {

/// The time left to task `t` on node `j`: its window, less the scheduling
/// time, less its computing time there.
pub open spec fn budget_entry(rel: Seq<Seq<i32>>, sched: i32, start: Seq<i32>, end: Seq<i32>, t: int, j: int) -> int {
    end[t] - start[t] - sched - rel[t][j]
}

/// Each subtraction of a budget entry stays in the `i32` range.
pub open spec fn budget_fits(rel: Seq<Seq<i32>>, sched: i32, start: Seq<i32>, end: Seq<i32>) -> bool {
    forall|t: int, j: int|
        0 <= t < rel.len() && 0 <= j < rel[t].len() ==> {
            &&& in_i32(end[t] - start[t])
            &&& in_i32(end[t] - start[t] - sched)
            &&& in_i32(#[trigger] budget_entry(rel, sched, start, end, t, j))
        }
}

/// The time budget matrix.
pub open spec fn budget_matrix(rel: Seq<Seq<i32>>, sched: i32, start: Seq<i32>, end: Seq<i32>) -> Seq<Seq<i32>> {
    Seq::new(rel.len(), |t: int| Seq::new(rel[t].len(), |j: int| budget_entry(rel, sched, start, end, t, j) as i32))
}

/// A budget as a cost: no cost where time is left over, the shortfall
/// where it is not.
pub open spec fn mapped_entry(item: i32) -> int {
    if item > 0 {
        0
    } else {
        -item
    }
}

/// The cost matrix of a budget matrix.
pub open spec fn mapped_matrix(m: Seq<Seq<i32>>) -> Seq<Seq<i32>> {
    Seq::new(m.len(), |t: int| Seq::new(m[t].len(), |j: int| mapped_entry(m[t][j]) as i32))
}

/// No entry is `i32::MIN`, whose negation does not fit.
pub open spec fn no_min_entry(m: Seq<Seq<i32>>) -> bool {
    forall|t: int, j: int| 0 <= t < m.len() && 0 <= j < m[t].len() ==> #[trigger] m[t][j] != i32::MIN
}

/// Each entry of the budget matrix is the task's end time, less its start
/// time, the scheduling time and its computing time on the node.
pub proof fn law_budget_entries(rel: Seq<Seq<i32>>, sched: i32, start: Seq<i32>, end: Seq<i32>, t: int, j: int)
    requires
        0 <= t < rel.len(),
        0 <= j < rel[t].len(),
        budget_fits(rel, sched, start, end),
    ensures
        budget_matrix(rel, sched, start, end)[t][j] == end[t] - start[t] - sched - rel[t][j],
        budget_matrix(rel, sched, start, end).len() == rel.len(),
        budget_matrix(rel, sched, start, end)[t].len() == rel[t].len(),
{
    assert(in_i32(budget_entry(rel, sched, start, end, t, j)));
}

/// A task whose window opens `k` ticks later has `k` ticks less on every
/// node; no other task's row changes.
pub proof fn law_later_start(rel: Seq<Seq<i32>>, sched: i32, start: Seq<i32>, end: Seq<i32>, t: int, k: int)
    requires
        0 <= t < rel.len(),
        start.len() >= rel.len(),
        end.len() >= rel.len(),
        i32::MIN <= start[t] + k <= i32::MAX,
        budget_fits(rel, sched, start, end),
        budget_fits(rel, sched, start.update(t, (start[t] + k) as i32), end),
    ensures
        forall|j: int|
            0 <= j < rel[t].len() ==> #[trigger] budget_matrix(rel, sched, start.update(t, (start[t] + k) as i32), end)[t][j]
                == budget_matrix(rel, sched, start, end)[t][j] - k,
        forall|t2: int, j: int|
            0 <= t2 < rel.len() && t2 != t && 0 <= j < rel[t2].len() ==> #[trigger] budget_matrix(
                rel,
                sched,
                start.update(t, (start[t] + k) as i32),
                end,
            )[t2][j] == budget_matrix(rel, sched, start, end)[t2][j],
{
    let s2 = start.update(t, (start[t] + k) as i32);
    assert forall|j: int| 0 <= j < rel[t].len() implies #[trigger] budget_matrix(rel, sched, s2, end)[t][j]
        == budget_matrix(rel, sched, start, end)[t][j] - k by {
        law_budget_entries(rel, sched, start, end, t, j);
        law_budget_entries(rel, sched, s2, end, t, j);
    }
    assert forall|t2: int, j: int| 0 <= t2 < rel.len() && t2 != t && 0 <= j < rel[t2].len() implies #[trigger] budget_matrix(
        rel,
        sched,
        s2,
        end,
    )[t2][j] == budget_matrix(rel, sched, start, end)[t2][j] by {
        law_budget_entries(rel, sched, start, end, t2, j);
        law_budget_entries(rel, sched, s2, end, t2, j);
    }
}

/// Builds the time budget matrix from the computing time of each task on
/// each node.
pub fn time_budget_matrix(
    relative_computing_time: &Vec<Vec<i32>>,
    scheduling_time: i32,
    start_time: &Vec<i32>,
    end_time: &Vec<i32>,
) -> (m: Vec<Vec<i32>>)
    requires
        start_time@.len() >= relative_computing_time@.len(),
        end_time@.len() >= relative_computing_time@.len(),
        budget_fits(matrix_view(relative_computing_time), scheduling_time, start_time@, end_time@),
    ensures
        matrix_view(&m) == budget_matrix(matrix_view(relative_computing_time), scheduling_time, start_time@, end_time@),
{
    let ghost rel = matrix_view(relative_computing_time);
    let ghost target = budget_matrix(rel, scheduling_time, start_time@, end_time@);
    let mut time_budget_matrix: Vec<Vec<i32>> = Vec::new();
    let mut task_index: usize = 0;
    while task_index < relative_computing_time.len()
        invariant
            rel == matrix_view(relative_computing_time),
            target == budget_matrix(rel, scheduling_time, start_time@, end_time@),
            start_time@.len() >= rel.len(),
            end_time@.len() >= rel.len(),
            budget_fits(rel, scheduling_time, start_time@, end_time@),
            0 <= task_index <= rel.len(),
            time_budget_matrix@.len() == task_index,
            forall|t: int| 0 <= t < task_index ==> (#[trigger] time_budget_matrix@[t])@ == target[t],
        decreases rel.len() - task_index,
    {
        let row = &relative_computing_time[task_index];
        let mut time_budget_row: Vec<i32> = Vec::new();
        let mut node_index: usize = 0;
        while node_index < row.len()
            invariant
                rel == matrix_view(relative_computing_time),
                target == budget_matrix(rel, scheduling_time, start_time@, end_time@),
                task_index < rel.len(),
                row@ == rel[task_index as int],
                start_time@.len() >= rel.len(),
                end_time@.len() >= rel.len(),
                budget_fits(rel, scheduling_time, start_time@, end_time@),
                0 <= node_index <= row@.len(),
                time_budget_row@.len() == node_index,
                forall|j: int| 0 <= j < node_index ==> #[trigger] time_budget_row@[j] == target[task_index as int][j],
            decreases row@.len() - node_index,
        {
            proof {
                let _e = budget_entry(rel, scheduling_time, start_time@, end_time@, task_index as int, node_index as int);
            }
            let time_budget = end_time[task_index] - start_time[task_index] - scheduling_time - row[node_index];
            time_budget_row.push(time_budget);
            node_index = node_index + 1;
        }
        proof {
            assert(time_budget_row@ =~= target[task_index as int]);
        }
        time_budget_matrix.push(time_budget_row);
        task_index = task_index + 1;
    }
    proof {
        assert(matrix_view(&time_budget_matrix) =~= target);
    }
    time_budget_matrix
}

/// The sum of a sequence.
pub open spec fn seq_sum(s: Seq<i32>) -> int
    decreases s.len(),
{
    if s.len() == 0 {
        0
    } else {
        seq_sum(s.drop_last()) + s.last()
    }
}

/// Every running total of the sequence fits in an `i32`.
pub open spec fn running_sums_fit(s: Seq<i32>) -> bool {
    forall|k: int| 0 <= k <= s.len() ==> in_i32(#[trigger] seq_sum(s.take(k)))
}

/// The row totals of a matrix, as `i32`s.
pub open spec fn row_sums(m: Seq<Seq<i32>>) -> Seq<i32> {
    Seq::new(m.len(), |t: int| seq_sum(m[t]) as i32)
}

/// The total of a row, summed from left to right.
fn row_sum(row: &Vec<i32>) -> (s: i32)
    requires
        running_sums_fit(row@),
    ensures
        s == seq_sum(row@),
{
    let mut total: i32 = 0;
    let mut j: usize = 0;
    proof {
        assert(row@.take(0) =~= Seq::<i32>::empty());
    }
    while j < row.len()
        invariant
            running_sums_fit(row@),
            0 <= j <= row@.len(),
            total == seq_sum(row@.take(j as int)),
        decreases row@.len() - j,
    {
        proof {
            assert(row@.take(j + 1).drop_last() =~= row@.take(j as int));
            assert(in_i32(seq_sum(row@.take(j + 1))));
        }
        total = total + row[j];
        j = j + 1;
    }
    proof {
        assert(row@.take(row@.len() as int) =~= row@);
    }
    total
}

/// The total of the time budget matrix, and whether it meets the realtime
/// requirement (the total is not negative).
pub fn realtime_requirement(time_budget_matrix: &Vec<Vec<i32>>) -> (r: (i32, bool))
    requires
        forall|t: int| 0 <= t < time_budget_matrix@.len() ==> #[trigger] running_sums_fit(time_budget_matrix@[t]@),
        running_sums_fit(row_sums(matrix_view(time_budget_matrix))),
    ensures
        r.0 == seq_sum(row_sums(matrix_view(time_budget_matrix))),
        r.1 == (r.0 >= 0),
{
    let ghost sums = row_sums(matrix_view(time_budget_matrix));
    let mut total: i32 = 0;
    let mut t: usize = 0;
    proof {
        assert(sums.take(0) =~= Seq::<i32>::empty());
    }
    while t < time_budget_matrix.len()
        invariant
            sums == row_sums(matrix_view(time_budget_matrix)),
            forall|t: int| 0 <= t < time_budget_matrix@.len() ==> #[trigger] running_sums_fit(time_budget_matrix@[t]@),
            running_sums_fit(sums),
            0 <= t <= sums.len(),
            total == seq_sum(sums.take(t as int)),
        decreases sums.len() - t,
    {
        let s = row_sum(&time_budget_matrix[t]);
        proof {
            assert(time_budget_matrix@[t as int]@.take(time_budget_matrix@[t as int]@.len() as int) =~= time_budget_matrix@[t as int]@);
            assert(in_i32(seq_sum(time_budget_matrix@[t as int]@.take(time_budget_matrix@[t as int]@.len() as int))));
            assert(sums[t as int] == s);
            assert(sums.take(t + 1).drop_last() =~= sums.take(t as int));
            assert(in_i32(seq_sum(sums.take(t + 1))));
        }
        total = total + s;
        t = t + 1;
    }
    proof {
        assert(sums.take(sums.len() as int) =~= sums);
    }
    (total, total >= 0)
}

/// Maps every budget entry to its cost.
pub fn map_time_budget(time_budget_matrix: &Vec<Vec<i32>>) -> (m: Vec<Vec<i32>>)
    requires
        no_min_entry(matrix_view(time_budget_matrix)),
    ensures
        matrix_view(&m) == mapped_matrix(matrix_view(time_budget_matrix)),
{
    let ghost src = matrix_view(time_budget_matrix);
    let mut time_budget_mapped: Vec<Vec<i32>> = Vec::new();
    let mut t: usize = 0;
    while t < time_budget_matrix.len()
        invariant
            src == matrix_view(time_budget_matrix),
            no_min_entry(src),
            0 <= t <= src.len(),
            time_budget_mapped@.len() == t,
            forall|k: int| 0 <= k < t ==> (#[trigger] time_budget_mapped@[k])@ == mapped_matrix(src)[k],
        decreases src.len() - t,
    {
        let row = &time_budget_matrix[t];
        let mut row_mapped: Vec<i32> = Vec::new();
        let mut j: usize = 0;
        while j < row.len()
            invariant
                src == matrix_view(time_budget_matrix),
                no_min_entry(src),
                t < src.len(),
                row@ == src[t as int],
                0 <= j <= row@.len(),
                row_mapped@.len() == j,
                forall|k: int| 0 <= k < j ==> #[trigger] row_mapped@[k] == mapped_matrix(src)[t as int][k],
            decreases row@.len() - j,
        {
            let item = row[j];
            proof {
                assert(src[t as int][j as int] == item);
            }
            row_mapped.push(if item > 0 {
                0
            } else {
                -item
            });
            j = j + 1;
        }
        proof {
            assert(row_mapped@ =~= mapped_matrix(src)[t as int]);
        }
        time_budget_mapped.push(row_mapped);
        t = t + 1;
    }
    proof {
        assert(matrix_view(&time_budget_mapped) =~= mapped_matrix(src));
    }
    time_budget_mapped
}

/// The task-by-node cost matrix: the time budget of each task on each node,
/// mapped to its shortfall.
pub fn make_matrix(
    relative_computing_time: &Vec<Vec<i32>>,
    scheduling_time: i32,
    start_time: &Vec<i32>,
    end_time: &Vec<i32>,
) -> (m: Vec<Vec<i32>>)
    requires
        start_time@.len() >= relative_computing_time@.len(),
        end_time@.len() >= relative_computing_time@.len(),
        budget_fits(matrix_view(relative_computing_time), scheduling_time, start_time@, end_time@),
        no_min_entry(budget_matrix(matrix_view(relative_computing_time), scheduling_time, start_time@, end_time@)),
    ensures
        matrix_view(&m) == mapped_matrix(
            budget_matrix(matrix_view(relative_computing_time), scheduling_time, start_time@, end_time@),
        ),
{
    let time_budget_matrix = time_budget_matrix(relative_computing_time, scheduling_time, start_time, end_time);
    map_time_budget(&time_budget_matrix)
}

} // verus!
