use std::collections::HashMap;
use vstd::prelude::*;

use crate::assignment_cost::{
    assignment_cost, is_potential_shift, lemma_cost_at_least_entry, lemma_cost_at_most, lemma_swap_perfect,
    swap_assignment, lemma_cost_nonneg, lemma_cost_shift, lemma_min_cost_carries,
    lemma_same_gaps_trans, lemma_seq_sum_nonneg, lemma_shift_same_gaps, lemma_zero_assignment_is_min,
    min_cost_assignment, same_cost_gaps,
};
use crate::matching::{
    matrix_view, pairable_shape, col_used, injective_pairs, is_link, pairs_within, pairs_of, pairs_linked,
    greedy_assignment, pairs_from_assignment,
};
use crate::zero_cover::{
    flag_amounts, flagged, grow_pairing, lemma_all_tasks_paired, lemma_unflagged_exists, lemma_flagged_finite, lemma_fewer_nodes_reached, lemma_flag_amounts_sum,
    matching_ok,
};

verus! {

/// A square matrix with at least one row.
pub open spec fn is_square(m: Seq<Seq<i32>>) -> bool {
    &&& m.len() >= 1
    &&& m.len() <= usize::MAX
    &&& forall|r: int| 0 <= r < m.len() ==> (#[trigger] m[r]).len() == m.len()
}

/// The smaller of two numbers.
pub open spec fn min_int(a: int, b: int) -> int {
    if a <= b {
        a
    } else {
        b
    }
}

/// The smallest entry of a row; zero for an empty row.
pub open spec fn row_min(s: Seq<i32>) -> int
    decreases s.len(),
{
    if s.len() == 0 {
        0
    } else if s.len() == 1 {
        s[0] as int
    } else {
        min_int(row_min(s.drop_last()), s.last() as int)
    }
}

/// Each row with its smallest entry taken off every entry.
pub open spec fn reduce_rows(m: Seq<Seq<i32>>) -> Seq<Seq<int>> {
    Seq::new(m.len(), |r: int| Seq::new(m[r].len(), |c: int| m[r][c] - row_min(m[r])))
}

/// All entries fit in an `i32`.
pub open spec fn fits_i32(m: Seq<Seq<int>>) -> bool {
    forall|r: int, c: int| 0 <= r < m.len() && 0 <= c < m[r].len() ==> i32::MIN <= #[trigger] m[r][c] <= i32::MAX
}

/// The entries as `i32`s.
pub open spec fn as_i32(m: Seq<Seq<int>>) -> Seq<Seq<i32>> {
    Seq::new(m.len(), |r: int| Seq::new(m[r].len(), |c: int| m[r][c] as i32))
}

/// The smallest entry of column `c` among the first `k` rows.
pub open spec fn col_min_upto(m: Seq<Seq<int>>, c: int, k: int) -> int
    decreases k,
{
    if k <= 1 {
        m[0][c]
    } else {
        min_int(col_min_upto(m, c, k - 1), m[k - 1][c])
    }
}

/// Each column with its smallest entry taken off every entry.
pub open spec fn reduce_cols(m: Seq<Seq<int>>) -> Seq<Seq<int>> {
    Seq::new(m.len(), |r: int| Seq::new(m[r].len(), |c: int| m[r][c] - col_min_upto(m, c, m.len() as int)))
}

/// The matrix after the rows and then the columns are reduced.
pub open spec fn reduced(m: Seq<Seq<i32>>) -> Seq<Seq<i32>> {
    as_i32(reduce_cols(reduce_rows(m)))
}

/// The smallest entry of a row is one of its entries and no entry is
/// smaller.
pub proof fn lemma_row_min(s: Seq<i32>)
    requires
        s.len() >= 1,
    ensures
        exists|c: int| 0 <= c < s.len() && s[c] == row_min(s),
        forall|c: int| 0 <= c < s.len() ==> row_min(s) <= s[c],
    decreases s.len(),
{
    if s.len() > 1 {
        lemma_row_min(s.drop_last());
        let c = choose|c: int| 0 <= c < s.drop_last().len() && s.drop_last()[c] == row_min(s.drop_last());
        if row_min(s) == s.last() {
            assert(s[s.len() - 1] == row_min(s));
        } else {
            assert(s[c] == row_min(s));
        }
        assert forall|c2: int| 0 <= c2 < s.len() implies row_min(s) <= s[c2] by {
            if c2 < s.len() - 1 {
                assert(s.drop_last()[c2] == s[c2]);
            }
        }
    } else {
        assert(s[0] == row_min(s));
    }
}

/// The smallest entry of a column among the first `k` rows is one of them
/// and no entry there is smaller.
pub proof fn lemma_col_min(m: Seq<Seq<int>>, c: int, k: int)
    requires
        1 <= k <= m.len(),
    ensures
        exists|r: int| 0 <= r < k && m[r][c] == col_min_upto(m, c, k),
        forall|r: int| 0 <= r < k ==> col_min_upto(m, c, k) <= #[trigger] m[r][c],
    decreases k,
{
    if k > 1 {
        lemma_col_min(m, c, k - 1);
        let r = choose|r: int| 0 <= r < k - 1 && m[r][c] == col_min_upto(m, c, k - 1);
        if col_min_upto(m, c, k) == m[k - 1][c] {
            assert(m[k - 1][c] == col_min_upto(m, c, k));
        } else {
            assert(m[r][c] == col_min_upto(m, c, k));
        }
    } else {
        assert(m[0][c] == col_min_upto(m, c, k));
    }
}

/// Row `r` has a zero entry.
pub open spec fn row_has_zero(m: Seq<Seq<int>>, r: int) -> bool {
    exists|c: int| 0 <= c < m[r].len() && #[trigger] m[r][c] == 0
}

/// Column `c` has a zero entry.
pub open spec fn col_has_zero(m: Seq<Seq<int>>, c: int) -> bool {
    exists|r: int| 0 <= r < m.len() && #[trigger] m[r][c] == 0
}

/// After the rows are reduced every entry is at least zero and each row has
/// a zero; after the columns are reduced as well, every row and every
/// column has a zero and no entry is negative.
pub proof fn law_reduction_zeros(m: Seq<Seq<i32>>)
    requires
        is_square(m),
    ensures
        forall|r: int, c: int| 0 <= r < m.len() && 0 <= c < m.len() ==> 0 <= #[trigger] reduce_cols(reduce_rows(m))[r][c],
        forall|r: int| 0 <= r < m.len() ==> #[trigger] row_has_zero(reduce_cols(reduce_rows(m)), r),
        forall|c: int| 0 <= c < m.len() ==> #[trigger] col_has_zero(reduce_cols(reduce_rows(m)), c),
{
    let n = m.len() as int;
    let m1 = reduce_rows(m);
    let m2 = reduce_cols(m1);
    assert forall|r: int, c: int| 0 <= r < n && 0 <= c < n implies 0 <= #[trigger] m1[r][c] by {
        assert(m[r].len() == n);
        lemma_row_min(m[r]);
    }
    assert forall|r: int| 0 <= r < n implies #[trigger] row_has_zero(m1, r) by {
        assert(m[r].len() == n);
        lemma_row_min(m[r]);
        let c = choose|c: int| 0 <= c < m[r].len() && m[r][c] == row_min(m[r]);
        assert(m1[r][c] == 0);
    }
    assert forall|c: int| 0 <= c < n implies #[trigger] col_has_zero(m2, c) by {
        lemma_col_min(m1, c, n);
        let r = choose|r: int| 0 <= r < n && m1[r][c] == col_min_upto(m1, c, n);
        assert(m1[r].len() == n);
        assert(0 <= m1[r][c]);
        assert(m2[r][c] == m1[r][c] - col_min_upto(m1, c, n));
        assert(m2[r][c] == 0);
    }
    assert forall|r: int, c: int| 0 <= r < n && 0 <= c < n implies 0 <= #[trigger] m2[r][c] by {
        lemma_col_min(m1, c, n);
        assert(m1[r].len() == n);
    }
    assert forall|r: int| 0 <= r < n implies #[trigger] row_has_zero(m2, r) by {
        assert(row_has_zero(m1, r));
        assert(m1[r].len() == n);
        let c = choose|c: int| 0 <= c < m1[r].len() && #[trigger] m1[r][c] == 0;
        lemma_col_min(m1, c, n);
        assert(col_min_upto(m1, c, n) <= m1[r][c]);
        let r2 = choose|r2: int| 0 <= r2 < n && m1[r2][c] == col_min_upto(m1, c, n);
        assert(m1[r2].len() == n);
        assert(0 <= m1[r2][c]);
        assert(m1[r].len() == n);
        assert(m2[r][c] == 0);
    }
}

/// The entries as mathematical integers.
pub open spec fn int_view(m: Seq<Seq<i32>>) -> Seq<Seq<int>> {
    Seq::new(m.len(), |r: int| Seq::new(m[r].len(), |c: int| m[r][c] as int))
}

/// Subtracts each row's smallest entry from every entry of the row; `None`
/// when a difference does not fit in an `i32`.
pub fn subtract_row_mins(matrix: &Vec<Vec<i32>>) -> (res: Option<Vec<Vec<i32>>>)
    requires
        is_square(matrix_view(matrix)),
    ensures
        match res {
            Some(m1) => fits_i32(reduce_rows(matrix_view(matrix))) && matrix_view(&m1) == as_i32(
                reduce_rows(matrix_view(matrix)),
            ),
            None => !fits_i32(reduce_rows(matrix_view(matrix))),
        },
{
    let ghost mv = matrix_view(matrix);
    let ghost target = reduce_rows(mv);
    let n = matrix.len();
    let mut out: Vec<Vec<i32>> = Vec::new();
    let mut row: usize = 0;
    while row < n
        invariant
            mv == matrix_view(matrix),
            target == reduce_rows(mv),
            is_square(mv),
            n == mv.len(),
            0 <= row <= n,
            out@.len() == row,
            forall|r: int| 0 <= r < row ==> (#[trigger] out@[r])@ == as_i32(target)[r],
            forall|r: int, c: int| 0 <= r < row && 0 <= c < n ==> i32::MIN <= #[trigger] target[r][c] <= i32::MAX,
        decreases n - row,
    {
        let cur = &matrix[row];
        assert(cur@ == mv[row as int]);
        assert(cur@.len() == n);
        let mut smallest: i32 = cur[0];
        let mut c: usize = 1;
        proof {
            assert(cur@.subrange(0, 1).drop_last() =~= Seq::<i32>::empty());
            assert(smallest == row_min(cur@.subrange(0, 1)));
        }
        while c < n
            invariant
                cur@.len() == n,
                1 <= c <= n,
                smallest == row_min(cur@.subrange(0, c as int)),
            decreases n - c,
        {
            proof {
                assert(cur@.subrange(0, c + 1).drop_last() =~= cur@.subrange(0, c as int));
            }
            if cur[c] < smallest {
                smallest = cur[c];
            }
            c = c + 1;
        }
        proof {
            assert(cur@.subrange(0, n as int) =~= cur@);
        }
        let mut new_row: Vec<i32> = Vec::new();
        let mut c: usize = 0;
        while c < n
            invariant
                cur@.len() == n,
                cur@ == mv[row as int],
                mv == matrix_view(matrix),
                target == reduce_rows(mv),
                row < mv.len(),
                smallest == row_min(mv[row as int]),
                0 <= c <= n,
                new_row@.len() == c,
                forall|k: int| 0 <= k < c ==> #[trigger] new_row@[k] == target[row as int][k],
                forall|k: int| 0 <= k < c ==> i32::MIN <= #[trigger] target[row as int][k] <= i32::MAX,
            decreases n - c,
        {
            match cur[c].checked_sub(smallest) {
                Some(v) => {
                    new_row.push(v);
                },
                None => {
                    proof {
                        assert(target[row as int].len() == n);
                        assert(target[row as int][c as int] == cur@[c as int] - smallest);
                        assert(!(i32::MIN <= target[row as int][c as int] <= i32::MAX));
                        assert(!fits_i32(target));
                    }
                    return None;
                },
            }
            c = c + 1;
        }
        proof {
            assert(new_row@ =~= as_i32(target)[row as int]);
        }
        out.push(new_row);
        proof {
            assert forall|r: int| 0 <= r < row + 1 implies (#[trigger] out@[r])@ == as_i32(target)[r] by {}
            assert forall|r: int, c: int| 0 <= r < row + 1 && 0 <= c < n implies i32::MIN <= #[trigger] target[r][c] <= i32::MAX by {
                if r == row {
                    assert(i32::MIN <= target[row as int][c] <= i32::MAX);
                }
            }
        }
        row = row + 1;
    }
    proof {
        assert(matrix_view(&out) =~= as_i32(target));
        assert forall|r: int, c: int| 0 <= r < target.len() && 0 <= c < target[r].len() implies i32::MIN <= #[trigger] target[r][c] <= i32::MAX by {
            assert(mv[r].len() == n);
        }
    }
    Some(out)
}

/// Entries that fit read back as themselves.
pub proof fn lemma_int_view_as_i32(m: Seq<Seq<int>>)
    requires
        fits_i32(m),
    ensures
        int_view(as_i32(m)) == m,
{
    assert forall|r: int| 0 <= r < m.len() implies #[trigger] int_view(as_i32(m))[r] == m[r] by {
        assert(int_view(as_i32(m))[r] =~= m[r]);
    }
    assert(int_view(as_i32(m)) =~= m);
}

/// Subtracts each column's smallest entry from every entry of the column.
pub fn subtract_col_mins(m1: &Vec<Vec<i32>>) -> (m2: Vec<Vec<i32>>)
    requires
        is_square(matrix_view(m1)),
        forall|r: int, c: int|
            0 <= r < m1@.len() && 0 <= c < m1@.len() ==> 0 <= #[trigger] matrix_view(m1)[r][c],
    ensures
        fits_i32(reduce_cols(int_view(matrix_view(m1)))),
        matrix_view(&m2) == as_i32(reduce_cols(int_view(matrix_view(m1)))),
        is_square(matrix_view(&m2)),
{
    let ghost mv = matrix_view(m1);
    let ghost iv = int_view(mv);
    let ghost target = reduce_cols(iv);
    let n = m1.len();
    // the smallest entry of each column
    let mut col_mins: Vec<i32> = Vec::new();
    let mut col: usize = 0;
    while col < n
        invariant
            mv == matrix_view(m1),
            iv == int_view(mv),
            is_square(mv),
            n == mv.len(),
            0 <= col <= n,
            col_mins@.len() == col,
            forall|c: int| 0 <= c < col ==> #[trigger] col_mins@[c] == col_min_upto(iv, c, n as int),
        decreases n - col,
    {
        assert(mv[0].len() == n);
        let mut col_min: i32 = m1[0][col];
        let mut k: usize = 1;
        while k < n
            invariant
                mv == matrix_view(m1),
                iv == int_view(mv),
                is_square(mv),
                n == mv.len(),
                col < n,
                1 <= k <= n,
                col_min == col_min_upto(iv, col as int, k as int),
            decreases n - k,
        {
            assert(mv[k as int].len() == n);
            if m1[k][col] < col_min {
                col_min = m1[k][col];
            }
            k = k + 1;
        }
        col_mins.push(col_min);
        col = col + 1;
    }
    let mut m2: Vec<Vec<i32>> = Vec::new();
    let mut row: usize = 0;
    while row < n
        invariant
            mv == matrix_view(m1),
            iv == int_view(mv),
            target == reduce_cols(iv),
            is_square(mv),
            n == mv.len(),
            col_mins@.len() == n,
            forall|c: int| 0 <= c < n ==> #[trigger] col_mins@[c] == col_min_upto(iv, c, n as int),
            forall|r: int, c: int| 0 <= r < n && 0 <= c < n ==> 0 <= #[trigger] mv[r][c],
            0 <= row <= n,
            m2@.len() == row,
            forall|r: int| 0 <= r < row ==> (#[trigger] m2@[r])@ == as_i32(target)[r],
        decreases n - row,
    {
        assert(mv[row as int].len() == n);
        let mut new_row: Vec<i32> = Vec::new();
        let mut c: usize = 0;
        while c < n
            invariant
                mv == matrix_view(m1),
                iv == int_view(mv),
                target == reduce_cols(iv),
                is_square(mv),
                n == mv.len(),
                row < n,
                col_mins@.len() == n,
                forall|c: int| 0 <= c < n ==> #[trigger] col_mins@[c] == col_min_upto(iv, c, n as int),
                forall|r: int, c: int| 0 <= r < n && 0 <= c < n ==> 0 <= #[trigger] mv[r][c],
                0 <= c <= n,
                new_row@.len() == c,
                forall|k: int| 0 <= k < c ==> #[trigger] new_row@[k] == target[row as int][k],
            decreases n - c,
        {
            proof {
                lemma_col_min(iv, c as int, n as int);
                assert(iv[row as int][c as int] == mv[row as int][c as int]);
                assert(col_mins@[c as int] <= iv[row as int][c as int]);
                let r0 = choose|r0: int| 0 <= r0 < n && iv[r0][c as int] == col_min_upto(iv, c as int, n as int);
                assert(iv[r0][c as int] == mv[r0][c as int]);
                assert(0 <= mv[r0][c as int]);
            }
            new_row.push(m1[row][c] - col_mins[c]);
            c = c + 1;
        }
        proof {
            assert(new_row@ =~= as_i32(target)[row as int]);
        }
        m2.push(new_row);
        proof {
            assert forall|r: int| 0 <= r < row + 1 implies (#[trigger] m2@[r])@ == as_i32(target)[r] by {}
        }
        row = row + 1;
    }
    proof {
        assert(matrix_view(&m2) =~= as_i32(target));
        assert forall|r: int, c: int| 0 <= r < target.len() && 0 <= c < target[r].len() implies i32::MIN <= #[trigger] target[r][c] <= i32::MAX by {
            lemma_col_min(iv, c, n as int);
            assert(mv[r].len() == n);
            assert(iv[r][c] == mv[r][c]);
            let r0 = choose|r0: int| 0 <= r0 < n && iv[r0][c] == col_min_upto(iv, c, n as int);
            assert(iv[r0][c] == mv[r0][c]);
            assert(0 <= mv[r0][c]);
        }
        assert forall|r: int| 0 <= r < matrix_view(&m2).len() implies (#[trigger] matrix_view(&m2)[r]).len() == matrix_view(&m2).len() by {
            assert(mv[r].len() == n);
        }
    }
    m2
}

/// Every task has a node and every node is in use.
pub open spec fn all_matched(p: Map<usize, usize>, n: int) -> bool {
    &&& forall|t: int| 0 <= t < n ==> #[trigger] p.contains_key(t as usize)
    &&& forall|v: int| 0 <= v < n ==> #[trigger] col_used(p, v)
}

/// Each of the `n` tasks has its own node below `n`.
pub open spec fn perfect_assignment(p: Map<usize, usize>, n: int) -> bool {
    &&& all_matched(p, n)
    &&& injective_pairs(p)
    &&& pairs_within(p, n, n)
}

/// What the row reduction takes off each row.
pub open spec fn row_mins(m: Seq<Seq<i32>>) -> Seq<int> {
    Seq::new(m.len(), |r: int| row_min(m[r]))
}

/// What the column reduction takes off each column.
pub open spec fn col_mins(m: Seq<Seq<i32>>) -> Seq<int> {
    Seq::new(m.len(), |c: int| col_min_upto(reduce_rows(m), c, m.len() as int))
}

/// The reduction takes a number off each row and a number off each column.
proof fn lemma_reduced_is_shift(m: Seq<Seq<i32>>)
    requires
        is_square(m),
        fits_i32(reduce_cols(reduce_rows(m))),
    ensures
        is_potential_shift(int_view(m), int_view(reduced(m)), row_mins(m), col_mins(m), m.len() as int),
{
    let n = m.len() as int;
    assert forall|i: int, j: int| 0 <= i < n && 0 <= j < n implies #[trigger] int_view(reduced(m))[i][j] == int_view(m)[i][j]
        - row_mins(m)[i] - col_mins(m)[j] by {
        assert(m[i].len() == n);
        let c = reduce_cols(reduce_rows(m));
        assert(i32::MIN <= c[i][j] <= i32::MAX);
    }
}

/// What one round of the search ends with.
pub enum RoundOutcome {
    /// Every task is paired with its own node.
    Solved(HashMap<usize, usize>),
    /// Some task has no node: the shifted matrix for the next round.
    Next(Vec<Vec<i32>>),
    /// An entry left the `i32` range.
    Overflow,
}


/// Whether a number fits in an `i32`.
pub open spec fn in_i32(v: int) -> bool {
    i32::MIN <= v <= i32::MAX
}

/// No entry is negative.
pub open spec fn nonneg(m: Seq<Seq<i32>>) -> bool {
    forall|r: int, c: int| 0 <= r < m.len() && 0 <= c < m.len() ==> 0 <= #[trigger] m[r][c]
}

/// The entries of a matrix with no negative entry, as integers, are not
/// negative either.
proof fn lemma_int_view_nonneg(m: Seq<Seq<i32>>)
    requires
        is_square(m),
        nonneg(m),
    ensures
        forall|i: int, j: int| 0 <= i < m.len() && 0 <= j < m.len() ==> 0 <= #[trigger] int_view(m)[i][j],
{
    assert forall|i: int, j: int| 0 <= i < m.len() && 0 <= j < m.len() implies 0 <= #[trigger] int_view(m)[i][j] by {
        assert(m[i].len() == m.len());
        assert(0 <= m[i][j]);
    }
}

/// Every assignment of the `n` tasks costs at most `i32::MAX`.
pub open spec fn costs_fit(m: Seq<Seq<int>>, n: int) -> bool {
    forall|q: Map<usize, usize>| perfect_assignment(q, n) ==> #[trigger] assignment_cost(m, q, n) <= i32::MAX
}

/// No entry is above `b`, and `n` times `b` fits in an `i32`.
pub open spec fn fits_with_bound(m: Seq<Seq<i32>>, b: int) -> bool {
    &&& forall|r: int, c: int| 0 <= r < m.len() && 0 <= c < m.len() ==> #[trigger] m[r][c] <= b
    &&& m.len() * b <= i32::MAX
}

/// Where `b` bounds the entries and `n` times it fits, so does the cost of
/// every assignment.
proof fn lemma_bound_costs_fit(m: Seq<Seq<i32>>, b: int)
    requires
        is_square(m),
        fits_with_bound(m, b),
    ensures
        costs_fit(int_view(m), m.len() as int),
{
    let n = m.len() as int;
    assert forall|q: Map<usize, usize>| perfect_assignment(q, n) implies #[trigger] assignment_cost(int_view(m), q, n)
        <= i32::MAX by {
        assert forall|x: int, y: int| 0 <= x < n && 0 <= y < n implies #[trigger] int_view(m)[x][y] <= b by {
            assert(m[x].len() == n);
            assert(m[x][y] <= b);
        }
        assert forall|x: int| 0 <= x < n implies #[trigger] q[x as usize] < n by {
            assert(q.contains_key(x as usize));
        }
        lemma_cost_at_most(int_view(m), q, n, b, n);
    }
}

/// A matrix that ranks assignments as `a` does, with a diagonal that costs
/// no more, has every assignment cost no more.
proof fn lemma_cheaper_fits(a: Seq<Seq<int>>, b: Seq<Seq<int>>, n: int)
    requires
        same_cost_gaps(a, b, n),
        perfect_assignment(identity_assignment(n), n),
        assignment_cost(b, identity_assignment(n), n) <= assignment_cost(a, identity_assignment(n), n),
        costs_fit(a, n),
    ensures
        costs_fit(b, n),
{
    let id = identity_assignment(n);
    assert forall|q: Map<usize, usize>| perfect_assignment(q, n) implies #[trigger] assignment_cost(b, q, n) <= i32::MAX by {
        assert(assignment_cost(a, q, n) - assignment_cost(a, id, n) == assignment_cost(b, q, n) - assignment_cost(b, id, n));
        assert(assignment_cost(a, q, n) <= i32::MAX);
    }
}

/// Each task `k` runs on node `k`.
pub open spec fn identity_assignment(n: int) -> Map<usize, usize> {
    Map::new(|k: usize| k < n, |k: usize| k)
}

/// Giving each task the node of its own number is an assignment.
pub proof fn lemma_identity_perfect(n: int)
    requires
        0 <= n <= usize::MAX,
    ensures
        perfect_assignment(identity_assignment(n), n),
{
    let p = identity_assignment(n);
    assert forall|v: int| 0 <= v < n implies #[trigger] col_used(p, v) by {
        assert(p.contains_key(v as usize) && p[v as usize] == v);
    }
}

/// Reducing a matrix with no negative entry stays within `i32`, and takes
/// no negative number off a row or a column.
proof fn lemma_nonneg_reduction(m: Seq<Seq<i32>>)
    requires
        is_square(m),
        nonneg(m),
    ensures
        fits_i32(reduce_rows(m)),
        fits_i32(reduce_cols(reduce_rows(m))),
        forall|i: int| 0 <= i < m.len() ==> 0 <= #[trigger] row_mins(m)[i],
        forall|j: int| 0 <= j < m.len() ==> 0 <= #[trigger] col_mins(m)[j],
{
    let n = m.len() as int;
    let r1 = reduce_rows(m);
    assert forall|i: int| 0 <= i < n implies 0 <= #[trigger] row_mins(m)[i] by {
        assert(m[i].len() == n);
        lemma_row_min(m[i]);
        let c = choose|c: int| 0 <= c < m[i].len() && m[i][c] == row_min(m[i]);
        assert(0 <= m[i][c]);
    }
    assert forall|r: int, c: int| 0 <= r < r1.len() && 0 <= c < r1[r].len() implies i32::MIN <= #[trigger] r1[r][c]
        <= i32::MAX by {
        assert(m[r].len() == n);
        lemma_row_min(m[r]);
        assert(0 <= row_mins(m)[r]);
    }
    law_reduction_zeros(m);
    assert forall|j: int| 0 <= j < n implies 0 <= #[trigger] col_mins(m)[j] by {
        lemma_col_min(r1, j, n);
        let r = choose|r: int| 0 <= r < n && r1[r][j] == col_min_upto(r1, j, n);
        assert(m[r].len() == n);
        lemma_row_min(m[r]);
    }
    let r2 = reduce_cols(r1);
    assert forall|r: int, c: int| 0 <= r < r2.len() && 0 <= c < r2[r].len() implies i32::MIN <= #[trigger] r2[r][c]
        <= i32::MAX by {
        assert(m[r].len() == n);
        lemma_row_min(m[r]);
        lemma_col_min(r1, c, n);
        assert(0 <= col_mins(m)[c]);
        assert(0 <= r2[r][c]);
    }
}

/// The pairing as a node-indexed table: which task holds each node.
fn owners_of(assigned: &Vec<Option<usize>>, Ghost(m): Ghost<Seq<Seq<i32>>>) -> (o: Vec<Option<usize>>)
    requires
        injective_pairs(pairs_of(assigned@)),
        pairs_within(pairs_of(assigned@), assigned@.len() as int, assigned@.len() as int),
        pairs_linked(m, pairs_of(assigned@)),
    ensures
        matching_ok(m, assigned@, o@, assigned@.len() as int),
{
    let n = assigned.len();
    let ghost p = pairs_of(assigned@);
    let mut o: Vec<Option<usize>> = Vec::new();
    let mut k: usize = 0;
    while k < n
        invariant
            n == assigned@.len(),
            0 <= k <= n,
            o@.len() == k,
            forall|c: int| 0 <= c < k ==> #[trigger] o@[c] is None,
        decreases n - k,
    {
        o.push(None);
        k = k + 1;
    }
    let mut r: usize = 0;
    while r < n
        invariant
            n == assigned@.len(),
            p == pairs_of(assigned@),
            injective_pairs(p),
            pairs_within(p, n as int, n as int),
            pairs_linked(m, p),
            0 <= r <= n,
            o@.len() == n,
            forall|c: int|
                0 <= c < n && (#[trigger] o@[c]) is Some ==> o@[c]->0 < r && assigned@[o@[c]->0 as int] == Some(
                    c as usize,
                ),
            forall|r2: int| 0 <= r2 < r && (#[trigger] assigned@[r2]) is Some ==> o@[assigned@[r2]->0 as int] == Some(
                r2 as usize,
            ),
        decreases n - r,
    {
        if let Some(c) = assigned[r] {
            proof {
                assert(p.contains_key(r) && p[r] == c);
                assert(c < n);
                assert forall|r2: int| 0 <= r2 < r && (#[trigger] assigned@[r2]) is Some implies assigned@[r2]->0 != c by {
                    assert(p.contains_key(r2 as usize));
                    assert(p[r2 as usize] != p[r]);
                }
            }
            let ghost o0 = o@;
            o.set(c, Some(r));
            proof {
                assert forall|r2: int| 0 <= r2 < r + 1 && (#[trigger] assigned@[r2]) is Some implies o@[assigned@[r2]->0 as int]
                    == Some(r2 as usize) by {
                    assert(p.contains_key(r2 as usize));
                    if r2 < r {
                        assert(assigned@[r2]->0 != c);
                        assert(o0[assigned@[r2]->0 as int] == Some(r2 as usize));
                    }
                }
            }
        }
        r = r + 1;
    }
    proof {
        assert forall|r2: int| 0 <= r2 < n && (#[trigger] assigned@[r2]) is Some implies {
            &&& 0 <= assigned@[r2]->0 < n
            &&& o@[assigned@[r2]->0 as int] == Some(r2 as usize)
            &&& m[r2][assigned@[r2]->0 as int] == 0
        } by {
            assert(p.contains_key(r2 as usize));
            assert(is_link(m, r2, p[r2 as usize] as int));
        }
    }
    o
}

/// The smallest entry at a reached task and a node not reached: no such
/// entry is smaller, and, where there is one, it is one of them. Every
/// such entry is at least one, and so is the result.
fn smallest_uncovered(m2: &Vec<Vec<i32>>, zr: &Vec<bool>, zc: &Vec<bool>) -> (d: i32)
    requires
        is_square(matrix_view(m2)),
        zr@.len() == m2@.len(),
        zc@.len() == m2@.len(),
        forall|i: int, j: int|
            0 <= i < m2@.len() && 0 <= j < m2@.len() && #[trigger] zr@[i] && !#[trigger] zc@[j] ==> 1
                <= matrix_view(m2)[i][j],
    ensures
        d >= 1,
        forall|i: int, j: int|
            0 <= i < m2@.len() && 0 <= j < m2@.len() && #[trigger] zr@[i] && !#[trigger] zc@[j] ==> d
                <= matrix_view(m2)[i][j],
        (exists|i: int, j: int| 0 <= i < m2@.len() && 0 <= j < m2@.len() && #[trigger] zr@[i] && !#[trigger] zc@[j])
            ==> exists|i: int, j: int|
            0 <= i < m2@.len() && 0 <= j < m2@.len() && #[trigger] zr@[i] && !#[trigger] zc@[j] && d == matrix_view(
                m2,
            )[i][j],
{
    let ghost mv = matrix_view(m2);
    let n = m2.len();
    let mut d: i32 = i32::MAX;
    let mut seen = false;
    let ghost mut wi: int = 0;
    let ghost mut wj: int = 0;
    let mut i: usize = 0;
    while i < n
        invariant
            mv == matrix_view(m2),
            is_square(mv),
            n == m2@.len(),
            zr@.len() == n,
            zc@.len() == n,
            forall|i: int, j: int| 0 <= i < n && 0 <= j < n && #[trigger] zr@[i] && !#[trigger] zc@[j] ==> 1 <= mv[i][j],
            0 <= i <= n,
            d >= 1,
            forall|i2: int, j: int| 0 <= i2 < i && 0 <= j < n && #[trigger] zr@[i2] && !#[trigger] zc@[j] ==> d <= mv[i2][j],
            seen ==> 0 <= wi < n && 0 <= wj < n && zr@[wi] && !zc@[wj] && d == mv[wi][wj],
            !seen ==> forall|i2: int, j: int| 0 <= i2 < i && 0 <= j < n ==> !(#[trigger] zr@[i2] && !#[trigger] zc@[j]),
        decreases n - i,
    {
        if zr[i] {
            let row = &m2[i];
            proof {
                assert(mv[i as int].len() == n);
            }
            let mut j: usize = 0;
            while j < n
                invariant
                    mv == matrix_view(m2),
                    is_square(mv),
                    n == m2@.len(),
                    row@ == mv[i as int],
                    row@.len() == n,
                    zr@.len() == n,
                    zc@.len() == n,
                    zr@[i as int],
                    forall|i: int, j: int| 0 <= i < n && 0 <= j < n && #[trigger] zr@[i] && !#[trigger] zc@[j] ==> 1 <= mv[i][j],
                    0 <= i < n,
                    0 <= j <= n,
                    d >= 1,
                    forall|i2: int, j2: int| 0 <= i2 < i && 0 <= j2 < n && #[trigger] zr@[i2] && !#[trigger] zc@[j2] ==> d <= mv[i2][j2],
                    forall|j2: int| 0 <= j2 < j && !#[trigger] zc@[j2] ==> d <= mv[i as int][j2],
                    seen ==> 0 <= wi < n && 0 <= wj < n && zr@[wi] && !zc@[wj] && d == mv[wi][wj],
                    !seen ==> forall|i2: int, j2: int| 0 <= i2 < i && 0 <= j2 < n ==> !(#[trigger] zr@[i2] && !#[trigger] zc@[j2]),
                    !seen ==> forall|j2: int| 0 <= j2 < j ==> #[trigger] zc@[j2],
                decreases n - j,
            {
                if !zc[j] && (!seen || row[j] < d) {
                    d = row[j];
                    seen = true;
                    proof {
                        wi = i as int;
                        wj = j as int;
                    }
                }
                j = j + 1;
            }
        }
        i = i + 1;
    }
    proof {
        if exists|i: int, j: int| 0 <= i < n && 0 <= j < n && #[trigger] zr@[i] && !#[trigger] zc@[j] {
            if !seen {
                let (i2, j2) = choose|i: int, j: int| 0 <= i < n && 0 <= j < n && #[trigger] zr@[i] && !#[trigger] zc@[j];
                assert(!(zr@[i2] && !zc@[j2]));
            }
            assert(zr@[wi] && !zc@[wj]);
        }
    }
    d
}

/// Takes `d` off the rows of the reached tasks and adds it to the columns
/// of the reached nodes; `None` where an entry would leave the `i32` range.
fn shift_cover(m2: &Vec<Vec<i32>>, zr: &Vec<bool>, zc: &Vec<bool>, d: i32) -> (res: Option<Vec<Vec<i32>>>)
    requires
        is_square(matrix_view(m2)),
        zr@.len() == m2@.len(),
        zc@.len() == m2@.len(),
    ensures
        match res {
            Some(m3) => {
                &&& is_square(matrix_view(&m3))
                &&& m3@.len() == m2@.len()
                &&& is_potential_shift(
                    int_view(matrix_view(m2)),
                    int_view(matrix_view(&m3)),
                    flag_amounts(zr@, d as int, m2@.len() as int),
                    flag_amounts(zc@, -d, m2@.len() as int),
                    m2@.len() as int,
                )
            },
            None => exists|i: int, j: int|
                0 <= i < m2@.len() && 0 <= j < m2@.len() && !in_i32(
                    matrix_view(m2)[i][j] - flag_amounts(zr@, d as int, m2@.len() as int)[i] - flag_amounts(
                        zc@,
                        -d,
                        m2@.len() as int,
                    )[j],
                ),
        },
{
    let ghost mv = matrix_view(m2);
    let n = m2.len();
    let ghost u = flag_amounts(zr@, d as int, n as int);
    let ghost w = flag_amounts(zc@, -d, n as int);
    let mut out: Vec<Vec<i32>> = Vec::new();
    let mut i: usize = 0;
    while i < n
        invariant
            mv == matrix_view(m2),
            is_square(mv),
            n == m2@.len(),
            zr@.len() == n,
            zc@.len() == n,
            u == flag_amounts(zr@, d as int, n as int),
            w == flag_amounts(zc@, -d, n as int),
            0 <= i <= n,
            out@.len() == i,
            forall|r: int| 0 <= r < i ==> (#[trigger] out@[r])@.len() == n,
            forall|r: int, c: int| 0 <= r < i && 0 <= c < n ==> #[trigger] out@[r]@[c] == mv[r][c] - u[r] - w[c],
        decreases n - i,
    {
        let row = &m2[i];
        proof {
            assert(mv[i as int].len() == n);
        }
        let mut new_row: Vec<i32> = Vec::new();
        let mut j: usize = 0;
        while j < n
            invariant
                mv == matrix_view(m2),
                is_square(mv),
                n == m2@.len(),
                row@ == mv[i as int],
                row@.len() == n,
                zr@.len() == n,
                zc@.len() == n,
                u == flag_amounts(zr@, d as int, n as int),
                w == flag_amounts(zc@, -d, n as int),
                0 <= i < n,
                0 <= j <= n,
                new_row@.len() == j,
                forall|c: int| 0 <= c < j ==> #[trigger] new_row@[c] == mv[i as int][c] - u[i as int] - w[c],
            decreases n - j,
        {
            let taken: i64 = if zr[i] {
                d as i64
            } else {
                0
            };
            let added: i64 = if zc[j] {
                d as i64
            } else {
                0
            };
            let v: i64 = row[j] as i64 - taken + added;
            if v < i32::MIN as i64 || v > i32::MAX as i64 {
                proof {
                    assert(!in_i32(mv[i as int][j as int] - u[i as int] - w[j as int]));
                }
                return None;
            }
            new_row.push(v as i32);
            j = j + 1;
        }
        out.push(new_row);
        i = i + 1;
    }
    proof {
        let ov = matrix_view(&out);
        assert forall|r: int| 0 <= r < ov.len() implies (#[trigger] ov[r]).len() == ov.len() by {}
        assert forall|r: int, c: int| 0 <= r < n && 0 <= c < n implies #[trigger] int_view(ov)[r][c] == int_view(mv)[r][c] - u[r]
            - w[c] by {
            assert(ov[r] == out@[r]@);
            assert(mv[r].len() == n);
        }
    }
    Some(out)
}

/// Some entry that is positive in `a` is zero in `b`.
pub open spec fn gains_zero(a: Seq<Seq<i32>>, b: Seq<Seq<i32>>) -> bool {
    exists|i: int, j: int| 0 <= i < a.len() && 0 <= j < a.len() && a[i][j] > 0 && b[i][j] == 0
}

/// Shifts a reduced matrix once: the smallest entry at a reached task and
/// a node not reached comes off the rows of the reached tasks and goes onto
/// the columns of the reached nodes. Where fewer nodes than tasks are
/// reached, the result ranks assignments alike, has no negative entry, a
/// cheaper diagonal, and a zero where the matrix was positive.
#[verifier::spinoff_prover]
#[verifier::rlimit(40)]
fn shift_step(m2: &Vec<Vec<i32>>, zr: &Vec<bool>, zc: &Vec<bool>) -> (res: Option<Vec<Vec<i32>>>)
    requires
        is_square(matrix_view(m2)),
        nonneg(matrix_view(m2)),
        zr@.len() == m2@.len(),
        zc@.len() == m2@.len(),
        forall|i: int, j: int|
            0 <= i < m2@.len() && 0 <= j < m2@.len() && #[trigger] zr@[i] && !#[trigger] zc@[j] ==> 1
                <= matrix_view(m2)[i][j],
        exists|i: int, j: int| 0 <= i < m2@.len() && 0 <= j < m2@.len() && #[trigger] zr@[i] && !#[trigger] zc@[j],
        flagged(zc@, m2@.len() as int).len() < flagged(zr@, m2@.len() as int).len(),
    ensures
        res is None ==> !costs_fit(int_view(matrix_view(m2)), m2@.len() as int),
        res matches Some(m3) ==> {
            &&& is_square(matrix_view(&m3))
            &&& m3@.len() == m2@.len()
            &&& nonneg(matrix_view(&m3))
            &&& same_cost_gaps(int_view(matrix_view(m2)), int_view(matrix_view(&m3)), m2@.len() as int)
            &&& assignment_cost(int_view(matrix_view(&m3)), identity_assignment(m2@.len() as int), m2@.len() as int)
                < assignment_cost(int_view(matrix_view(m2)), identity_assignment(m2@.len() as int), m2@.len() as int)
            &&& gains_zero(matrix_view(m2), matrix_view(&m3))
        },
{
    let ghost m2v = matrix_view(m2);
    let n = m2.len();
    let ghost id = identity_assignment(n as int);
    proof {
        lemma_identity_perfect(n as int);
    }
    let d = smallest_uncovered(m2, zr, zc);
    let ghost u = flag_amounts(zr@, d as int, n as int);
    let ghost w = flag_amounts(zc@, -d, n as int);
    let ghost m2i = int_view(m2v);
    let ghost nm = Seq::new(n as nat, |i: int| Seq::new(n as nat, |j: int| m2i[i][j] - u[i] - w[j]));
    proof {
        assert(is_potential_shift(m2i, nm, u, w, n as int));
        assert forall|i: int, j: int| 0 <= i < n && 0 <= j < n implies 0 <= #[trigger] nm[i][j] by {
            assert(m2v[i].len() == n);
            assert(0 <= m2v[i][j]);
            if zr@[i] && !zc@[j] {
                assert(d <= m2v[i][j]);
            }
        }
        lemma_shift_same_gaps(m2i, nm, u, w, n as int);
        lemma_cost_shift(m2i, nm, u, w, n as int, id);
        lemma_flag_amounts_sum(zr@, d as int, n as int, n as int);
        lemma_flag_amounts_sum(zc@, -d, n as int, n as int);
        let nr = flagged(zr@, n as int).len() as int;
        let nc = flagged(zc@, n as int).len() as int;
        assert(d * nr + (-d) * nc >= 1) by (nonlinear_arith)
            requires
                d >= 1,
                nc < nr,
        ;
        assert(assignment_cost(nm, id, n as int) < assignment_cost(m2i, id, n as int));
    }
    match shift_cover(m2, zr, zc, d) {
        None => {
            proof {
                if costs_fit(m2i, n as int) {
                    let (i, j) = choose|i: int, j: int| 0 <= i < n && 0 <= j < n && !in_i32(m2v[i][j] - u[i] - w[j]);
                    assert(m2v[i].len() == n);
                    assert(nm[i][j] == m2v[i][j] - u[i] - w[j]);
                    lemma_swap_perfect(n as int, i, j);
                    let q = swap_assignment(n as int, i, j);
                    lemma_cost_at_least_entry(nm, q, n as int, i);
                    assert(assignment_cost(m2i, q, n as int) - assignment_cost(m2i, id, n as int)
                        == assignment_cost(nm, q, n as int) - assignment_cost(nm, id, n as int));
                    assert(assignment_cost(m2i, q, n as int) <= i32::MAX);
                    assert(0 <= nm[i][j]);
                }
            }
            None
        },
        Some(m3) => {
            proof {
                let m3v = matrix_view(&m3);
                assert(int_view(m3v) =~= nm) by {
                    assert forall|i: int| 0 <= i < n implies #[trigger] int_view(m3v)[i] =~= nm[i] by {
                        assert(m3v[i].len() == n);
                    }
                }
                assert forall|i: int, j: int| 0 <= i < n && 0 <= j < n implies 0 <= #[trigger] m3v[i][j] by {
                    assert(m3v[i].len() == n);
                    assert(int_view(m3v)[i][j] == nm[i][j]);
                }
                let (wi, wj) = choose|i: int, j: int|
                    0 <= i < n && 0 <= j < n && #[trigger] zr@[i] && !#[trigger] zc@[j] && d == m2v[i][j];
                assert(m3v[wi].len() == n);
                assert(int_view(m3v)[wi][wj] == nm[wi][wj]);
                assert(m3v[wi][wj] == 0);
                assert(m2v[wi][wj] > 0);
                assert(gains_zero(m2v, m3v));
            }
            Some(m3)
        },
    }
}

/// One round of the search: reduce rows and columns, pair tasks with nodes
/// greedily over the zeros, and grow the pairing along paths of zeros.
/// When every task has a node, the round is solved with an assignment of
/// least cost. Otherwise the smallest entry at a reached task and a node
/// not reached is taken off the rows of the reached tasks and added to the
/// columns of the reached nodes: the next matrix ranks assignments as this
/// one does, has no negative entry, and its diagonal costs less.
#[verifier::spinoff_prover]
#[verifier::rlimit(60)]
pub fn find_solutions_round(matrix: &Vec<Vec<i32>>) -> (out: RoundOutcome)
    requires
        is_square(matrix_view(matrix)),
        nonneg(matrix_view(matrix)),
    ensures
        out matches RoundOutcome::Solved(h) ==> perfect_assignment(h@, matrix@.len() as int) && min_cost_assignment(
            int_view(matrix_view(matrix)),
            h@,
            matrix@.len() as int,
        ),
        out matches RoundOutcome::Next(m3) ==> {
            &&& is_square(matrix_view(&m3))
            &&& m3@.len() == matrix@.len()
            &&& nonneg(matrix_view(&m3))
            &&& same_cost_gaps(int_view(matrix_view(matrix)), int_view(matrix_view(&m3)), matrix@.len() as int)
            &&& assignment_cost(int_view(matrix_view(&m3)), identity_assignment(matrix@.len() as int), matrix@.len() as int)
                < assignment_cost(int_view(matrix_view(matrix)), identity_assignment(matrix@.len() as int), matrix@.len() as int)
        },
        out is Overflow ==> !costs_fit(int_view(matrix_view(matrix)), matrix@.len() as int),
        // the shift is by the smallest entry it can take: some entry that was
        // positive after the reduction becomes a zero
        out matches RoundOutcome::Next(m3) ==> gains_zero(reduced(matrix_view(matrix)), matrix_view(&m3)),
{
    let ghost mv = matrix_view(matrix);
    let n = matrix.len();
    let ghost id = identity_assignment(n as int);
    proof {
        lemma_nonneg_reduction(mv);
        lemma_identity_perfect(n as int);
    }
    let m1 = match subtract_row_mins(matrix) {
        Some(m1) => m1,
        None => {
            return RoundOutcome::Overflow;
        },
    };
    proof {
        lemma_int_view_as_i32(reduce_rows(mv));
        assert forall|r: int| 0 <= r < matrix_view(&m1).len() implies (#[trigger] matrix_view(&m1)[r]).len() == matrix_view(&m1).len() by {
            assert(mv[r].len() == n);
        }
        assert forall|r: int, c: int| 0 <= r < m1@.len() && 0 <= c < m1@.len() implies 0 <= #[trigger] matrix_view(&m1)[r][c] by {
            assert(mv[r].len() == n);
            lemma_row_min(mv[r]);
            assert(reduce_rows(mv)[r][c] >= 0);
        }
    }
    let m2 = subtract_col_mins(&m1);
    let ghost m2v = matrix_view(&m2);
    proof {
        law_reduction_zeros(mv);
        assert(m2v == reduced(mv));
        assert forall|r: int| 0 <= r < m2@.len() implies (#[trigger] m2@[r])@.len() == m2@.len() by {
            assert(m2v[r] == m2@[r]@);
        }
        assert(int_view(matrix_view(&m1)) == reduce_rows(mv));
        lemma_reduced_is_shift(mv);
        lemma_shift_same_gaps(int_view(mv), int_view(m2v), row_mins(mv), col_mins(mv), n as int);
        lemma_cost_shift(int_view(mv), int_view(m2v), row_mins(mv), col_mins(mv), n as int, id);
        lemma_seq_sum_nonneg(row_mins(mv), n as int);
        lemma_seq_sum_nonneg(col_mins(mv), n as int);
        assert forall|i: int, j: int| 0 <= i < n && 0 <= j < n implies 0 <= #[trigger] m2v[i][j] by {
            assert(mv[i].len() == n);
            assert(0 <= reduce_cols(reduce_rows(mv))[i][j]);
        }
        assert forall|r: int, c: int| #![trigger m2v[r][c]] 0 <= r < m2v.len() && 0 <= c < m2v[r].len() implies c < m2v.len() && r < m2v[c].len() by {
            assert(m2v[r].len() == n && m2v[c].len() == n);
        }
        assert(pairable_shape(m2v));
    }
    let (mut assigned, _) = greedy_assignment(&m2);
    let mut owners = owners_of(&assigned, Ghost(m2v));
    let (zr, zc) = grow_pairing(&m2, &mut assigned, &mut owners);
    let mut root: Option<usize> = None;
    let mut k: usize = 0;
    while k < n
        invariant
            n == assigned@.len(),
            0 <= k <= n,
            root matches Some(t) ==> t < n && assigned@[t as int] is None,
            root is None ==> forall|t: int| 0 <= t < k ==> (#[trigger] assigned@[t]) is Some,
        decreases n - k,
    {
        if assigned[k].is_none() {
            root = Some(k);
        }
        k = k + 1;
    }
    match root {
        None => {
            let pairs = pairs_from_assignment(&assigned);
            proof {
                let a = assigned@;
                let p = pairs@;
                lemma_all_tasks_paired(m2v, a, owners@, n as int);
                assert forall|t: int| 0 <= t < n implies #[trigger] p.contains_key(t as usize) by {
                    assert(a[t] is Some);
                }
                assert forall|v: int| 0 <= v < n implies #[trigger] col_used(p, v) by {
                    assert(owners@[v] is Some);
                    let r = owners@[v]->0;
                    assert(a[r as int] == Some(v as usize));
                    assert(p.contains_key(r) && p[r] == v);
                }
                assert forall|x: usize, y: usize| p.contains_key(x) && p.contains_key(y) && x != y implies #[trigger] p[x]
                    != #[trigger] p[y] by {
                    assert(a[x as int] is Some && a[y as int] is Some);
                    assert(owners@[p[x] as int] == Some(x));
                    assert(owners@[p[y] as int] == Some(y));
                }
                assert forall|x: usize| #[trigger] p.contains_key(x) implies x < n && p[x] < n by {
                    assert(a[x as int] is Some);
                }
                assert forall|i: int| 0 <= i < n implies #[trigger] m2v[i][p[i as usize] as int] == 0 by {
                    assert(a[i] is Some);
                }
                assert forall|i: int, j: int| 0 <= i < n && 0 <= j < n implies 0 <= #[trigger] int_view(m2v)[i][j] by {
                    assert(0 <= m2v[i][j]);
                }
                assert forall|i: int| 0 <= i < n implies #[trigger] int_view(m2v)[i][p[i as usize] as int] == 0 by {
                    assert(m2v[i][p[i as usize] as int] == 0);
                }
                lemma_zero_assignment_is_min(int_view(m2v), p, n as int);
                lemma_min_cost_carries(int_view(mv), int_view(m2v), p, n as int);
            }
            RoundOutcome::Solved(pairs)
        },
        Some(t) => {
            proof {
                assert forall|i: int, j: int| 0 <= i < n && 0 <= j < n && #[trigger] zr@[i] && !#[trigger] zc@[j] implies 1
                    <= m2v[i][j] by {
                    assert(0 <= m2v[i][j]);
                    if m2v[i][j] == 0 {
                        assert(zc@[j]);
                    }
                }
                lemma_fewer_nodes_reached(m2v, assigned@, owners@, zr@, zc@, n as int, t as int);
                lemma_flagged_finite(zr@, n as int);
                lemma_unflagged_exists(zc@, n as int);
                let c = choose|c: int| 0 <= c < n && !zc@[c];
                assert(zr@[t as int] && !zc@[c]);
                assert(nonneg(m2v));
            }
            match shift_step(&m2, &zr, &zc) {
                None => {
                    proof {
                        if costs_fit(int_view(mv), n as int) {
                            lemma_cheaper_fits(int_view(mv), int_view(m2v), n as int);
                        }
                    }
                    RoundOutcome::Overflow
                },
                Some(m3) => {
                    proof {
                        lemma_same_gaps_trans(int_view(mv), int_view(m2v), int_view(matrix_view(&m3)), n as int);
                        assert(reduced(mv) == m2v);
                    }
                    RoundOutcome::Next(m3)
                },
            }
        },
    }
}

/// Runs rounds until every task is paired with its own node, and returns
/// that assignment, which costs least. Each round that does not finish
/// takes at least one off the cost of the diagonal, which never drops
/// below zero, so the rounds come to an end. `None` only where some
/// assignment costs more than `i32::MAX`, which cannot happen when `n`
/// times the largest entry fits in an `i32`.
pub fn find_solutions(matrix: &Vec<Vec<i32>>) -> (res: Option<HashMap<usize, usize>>)
    requires
        is_square(matrix_view(matrix)),
        nonneg(matrix_view(matrix)),
    ensures
        res matches Some(h) ==> perfect_assignment(h@, matrix@.len() as int) && min_cost_assignment(
            int_view(matrix_view(matrix)),
            h@,
            matrix@.len() as int,
        ),
        // an assignment is found whenever the costs stay within `i32`
        (exists|b: int| fits_with_bound(matrix_view(matrix), b)) ==> res is Some,
        res is None ==> !costs_fit(int_view(matrix_view(matrix)), matrix@.len() as int),
{
    let ghost mv = matrix_view(matrix);
    let n = matrix.len();
    let ghost id = identity_assignment(n as int);
    proof {
        lemma_identity_perfect(n as int);
        if exists|b: int| fits_with_bound(mv, b) {
            let b = choose|b: int| fits_with_bound(mv, b);
            lemma_bound_costs_fit(mv, b);
        }
    }
    match find_solutions_round(matrix) {
        RoundOutcome::Overflow => None,
        RoundOutcome::Solved(pairs) => Some(pairs),
        RoundOutcome::Next(first) => {
            let mut current = first;
            proof {
                lemma_int_view_nonneg(matrix_view(&current));
                lemma_cost_nonneg(int_view(matrix_view(&current)), id, n as int);
                if costs_fit(int_view(mv), n as int) {
                    lemma_cheaper_fits(int_view(mv), int_view(matrix_view(&current)), n as int);
                }
            }
            loop
                invariant
                    mv == matrix_view(matrix),
                    n == matrix@.len(),
                    id == identity_assignment(n as int),
                    perfect_assignment(id, n as int),
                    is_square(matrix_view(&current)),
                    current@.len() == n,
                    nonneg(matrix_view(&current)),
                    same_cost_gaps(int_view(mv), int_view(matrix_view(&current)), n as int),
                    assignment_cost(int_view(matrix_view(&current)), id, n as int) >= 0,
                    assignment_cost(int_view(matrix_view(&current)), id, n as int) <= assignment_cost(int_view(mv), id, n as int),
                    (exists|b: int| fits_with_bound(mv, b)) ==> costs_fit(int_view(mv), n as int),
                    costs_fit(int_view(mv), n as int) ==> costs_fit(int_view(matrix_view(&current)), n as int),
                decreases assignment_cost(int_view(matrix_view(&current)), id, n as int),
            {
                let ghost cv = matrix_view(&current);
                match find_solutions_round(&current) {
                    RoundOutcome::Overflow => {
                        return None;
                    },
                    RoundOutcome::Solved(pairs) => {
                        proof {
                            lemma_min_cost_carries(int_view(mv), int_view(cv), pairs@, n as int);
                        }
                        return Some(pairs);
                    },
                    RoundOutcome::Next(next) => {
                        proof {
                            lemma_same_gaps_trans(int_view(mv), int_view(cv), int_view(matrix_view(&next)), n as int);
                            lemma_int_view_nonneg(matrix_view(&next));
                            lemma_cost_nonneg(int_view(matrix_view(&next)), id, n as int);
                            if costs_fit(int_view(mv), n as int) {
                                lemma_cheaper_fits(int_view(mv), int_view(matrix_view(&next)), n as int);
                            }
                        }
                        current = next;
                    },
                }
            }
        },
    }
}

} // verus!
