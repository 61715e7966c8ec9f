use vstd::prelude::*;

use crate::hungarian::perfect_assignment;
use crate::matching::col_used;

verus! {

/// The total cost of the first `k` pairs of an assignment: the entry of
/// each task's row in the column of its node.
pub open spec fn assignment_cost(m: Seq<Seq<int>>, p: Map<usize, usize>, k: int) -> int
    decreases k,
{
    if k <= 0 {
        0
    } else {
        assignment_cost(m, p, k - 1) + m[k - 1][p[(k - 1) as usize] as int]
    }
}

/// `p` costs no more than any other assignment of each of the `n` tasks to
/// its own node.
pub open spec fn min_cost_assignment(m: Seq<Seq<int>>, p: Map<usize, usize>, n: int) -> bool {
    forall|q: Map<usize, usize>|
        perfect_assignment(q, n) ==> assignment_cost(m, p, n) <= #[trigger] assignment_cost(m, q, n)
}

/// Two matrices rank the assignments of `n` tasks alike: any two of them
/// differ in cost by the same amount in both.
pub open spec fn same_cost_gaps(a: Seq<Seq<int>>, b: Seq<Seq<int>>, n: int) -> bool {
    forall|p: Map<usize, usize>, q: Map<usize, usize>|
        #![trigger assignment_cost(a, p, n), assignment_cost(a, q, n)]
        #![trigger assignment_cost(b, p, n), assignment_cost(b, q, n)]
        perfect_assignment(p, n) && perfect_assignment(q, n) ==> assignment_cost(a, p, n) - assignment_cost(a, q, n)
            == assignment_cost(b, p, n) - assignment_cost(b, q, n)
}

/// The sum of the first `k` numbers.
pub open spec fn seq_sum(s: Seq<int>, k: int) -> int
    decreases k,
{
    if k <= 0 {
        0
    } else {
        seq_sum(s, k - 1) + s[k - 1]
    }
}

/// The sum of the numbers that the first `k` tasks pick through `p`.
pub open spec fn picked_sum(s: Seq<int>, p: Map<usize, usize>, k: int) -> int
    decreases k,
{
    if k <= 0 {
        0
    } else {
        picked_sum(s, p, k - 1) + s[p[(k - 1) as usize] as int]
    }
}

/// `b` is `a` with `u[i]` taken off row `i` and `w[j]` off column `j`.
pub open spec fn is_potential_shift(a: Seq<Seq<int>>, b: Seq<Seq<int>>, u: Seq<int>, w: Seq<int>, n: int) -> bool {
    forall|i: int, j: int| 0 <= i < n && 0 <= j < n ==> #[trigger] b[i][j] == a[i][j] - u[i] - w[j]
}

proof fn lemma_picked_agree(s: Seq<int>, p: Map<usize, usize>, q: Map<usize, usize>, k: int)
    requires
        forall|i: int| 0 <= i < k ==> #[trigger] p[i as usize] == q[i as usize],
    ensures
        picked_sum(s, p, k) == picked_sum(s, q, k),
    decreases k,
{
    if k > 0 {
        lemma_picked_agree(s, p, q, k - 1);
        assert(p[(k - 1) as usize] == q[(k - 1) as usize]);
    }
}

proof fn lemma_picked_change_one(s: Seq<int>, p: Map<usize, usize>, q: Map<usize, usize>, k: int, j: int)
    requires
        0 <= j < k,
        forall|i: int| 0 <= i < k && i != j ==> #[trigger] p[i as usize] == q[i as usize],
    ensures
        picked_sum(s, q, k) == picked_sum(s, p, k) - s[p[j as usize] as int] + s[q[j as usize] as int],
    decreases k,
{
    if j == k - 1 {
        lemma_picked_agree(s, p, q, k - 1);
    } else {
        lemma_picked_change_one(s, p, q, k - 1, j);
        assert(p[(k - 1) as usize] == q[(k - 1) as usize]);
    }
}

/// Over an assignment of each of the `n` tasks to its own node, the nodes
/// picked are all the nodes once each, so their sum is the sum of all.
pub proof fn lemma_picked_sum_permutation(s: Seq<int>, p: Map<usize, usize>, n: int)
    requires
        n >= 0,
        perfect_assignment(p, n),
    ensures
        picked_sum(s, p, n) == seq_sum(s, n),
    decreases n,
{
    if n > 0 {
        let last = (n - 1) as usize;
        assert(col_used(p, n - 1));
        let js = choose|k: usize| p.contains_key(k) && #[trigger] p[k] == n - 1;
        assert(js < n);
        assert(p.contains_key(last));
        let q = if js == last {
            p.remove(last)
        } else {
            p.remove(last).insert(js, p[last])
        };
        assert(perfect_assignment(q, n - 1)) by {
            assert forall|t: int| 0 <= t < n - 1 implies #[trigger] q.contains_key(t as usize) by {
                assert(p.contains_key(t as usize));
            }
            assert forall|v: int| 0 <= v < n - 1 implies #[trigger] col_used(q, v) by {
                assert(col_used(p, v));
                let k = choose|k: usize| p.contains_key(k) && #[trigger] p[k] == v;
                if k == last {
                    assert(js != last);
                    assert(q.contains_key(js) && q[js] == v);
                } else {
                    assert(k != js);
                    assert(q.contains_key(k) && q[k] == v);
                }
            }
            assert forall|a: usize, b: usize| q.contains_key(a) && q.contains_key(b) && a != b implies #[trigger] q[a]
                != #[trigger] q[b] by {
                assert(p.contains_key(a) && p.contains_key(b));
                if a == js {
                    assert(p[last] != p[b]);
                } else if b == js {
                    assert(p[last] != p[a]);
                } else {
                    assert(p[a] != p[b]);
                }
            }
            assert forall|k: usize| #[trigger] q.contains_key(k) implies k < n - 1 && q[k] < n - 1 by {
                assert(p.contains_key(k));
                if k == js {
                    assert(js != last);
                    assert(p[last] != p[js]);
                    assert(p[last] < n);
                } else {
                    assert(p[k] != p[js]);
                }
            }
        }
        lemma_picked_sum_permutation(s, q, n - 1);
        if js == last {
            assert forall|i: int| 0 <= i < n - 1 implies #[trigger] p[i as usize] == q[i as usize] by {
                assert(i as usize != last);
            }
            lemma_picked_agree(s, p, q, n - 1);
        } else {
            assert forall|i: int| 0 <= i < n - 1 && i != js implies #[trigger] p[i as usize] == q[i as usize] by {
                assert(i as usize != last);
            }
            lemma_picked_change_one(s, p, q, n - 1, js as int);
        }
    }
}

/// Taking `u[i]` off each row and `w[j]` off each column takes the sum of
/// the first `k` of `u` and what the first `k` tasks pick of `w` off the
/// cost of an assignment.
proof fn lemma_cost_shift_upto(
    a: Seq<Seq<int>>,
    b: Seq<Seq<int>>,
    u: Seq<int>,
    w: Seq<int>,
    n: int,
    p: Map<usize, usize>,
    k: int,
)
    requires
        0 <= k <= n,
        is_potential_shift(a, b, u, w, n),
        forall|i: int| 0 <= i < k ==> #[trigger] p[i as usize] < n,
    ensures
        assignment_cost(a, p, k) == assignment_cost(b, p, k) + seq_sum(u, k) + picked_sum(w, p, k),
    decreases k,
{
    if k > 0 {
        lemma_cost_shift_upto(a, b, u, w, n, p, k - 1);
        let j = p[(k - 1) as usize] as int;
        assert(p[(k - 1) as usize] < n);
        assert(b[k - 1][j] == a[k - 1][j] - u[k - 1] - w[j]);
    }
}

/// A potential shift changes the cost of every assignment of the `n` tasks
/// by the same amount: the sums of what it takes off the rows and the
/// columns.
pub proof fn lemma_cost_shift(a: Seq<Seq<int>>, b: Seq<Seq<int>>, u: Seq<int>, w: Seq<int>, n: int, p: Map<usize, usize>)
    requires
        n >= 0,
        is_potential_shift(a, b, u, w, n),
        perfect_assignment(p, n),
    ensures
        assignment_cost(a, p, n) == assignment_cost(b, p, n) + seq_sum(u, n) + seq_sum(w, n),
{
    assert forall|i: int| 0 <= i < n implies #[trigger] p[i as usize] < n by {
        assert(p.contains_key(i as usize));
    }
    lemma_cost_shift_upto(a, b, u, w, n, p, n);
    lemma_picked_sum_permutation(w, p, n);
}

/// A potential shift ranks all assignments alike.
pub proof fn lemma_shift_same_gaps(a: Seq<Seq<int>>, b: Seq<Seq<int>>, u: Seq<int>, w: Seq<int>, n: int)
    requires
        n >= 0,
        is_potential_shift(a, b, u, w, n),
    ensures
        same_cost_gaps(a, b, n),
{
    assert forall|p: Map<usize, usize>, q: Map<usize, usize>|
        perfect_assignment(p, n) && perfect_assignment(q, n) implies assignment_cost(a, p, n) - assignment_cost(
            a,
            q,
            n,
        ) == assignment_cost(b, p, n) - assignment_cost(b, q, n) by {
        lemma_cost_shift(a, b, u, w, n, p);
        lemma_cost_shift(a, b, u, w, n, q);
    }
}

/// Ranking assignments alike carries over from one matrix to the next.
pub proof fn lemma_same_gaps_trans(a: Seq<Seq<int>>, b: Seq<Seq<int>>, c: Seq<Seq<int>>, n: int)
    requires
        same_cost_gaps(a, b, n),
        same_cost_gaps(b, c, n),
    ensures
        same_cost_gaps(a, c, n),
{
    assert forall|p: Map<usize, usize>, q: Map<usize, usize>|
        perfect_assignment(p, n) && perfect_assignment(q, n) implies assignment_cost(a, p, n) - assignment_cost(
            a,
            q,
            n,
        ) == assignment_cost(c, p, n) - assignment_cost(c, q, n) by {
        assert(assignment_cost(b, p, n) - assignment_cost(b, q, n) == assignment_cost(c, p, n) - assignment_cost(
            c,
            q,
            n,
        ));
    }
}

/// An assignment of least cost for one matrix is one for every matrix
/// that ranks assignments alike.
pub proof fn lemma_min_cost_carries(a: Seq<Seq<int>>, b: Seq<Seq<int>>, p: Map<usize, usize>, n: int)
    requires
        same_cost_gaps(a, b, n),
        perfect_assignment(p, n),
        min_cost_assignment(b, p, n),
    ensures
        min_cost_assignment(a, p, n),
{
    assert forall|q: Map<usize, usize>| perfect_assignment(q, n) implies assignment_cost(a, p, n)
        <= #[trigger] assignment_cost(a, q, n) by {
        assert(assignment_cost(b, p, n) <= assignment_cost(b, q, n));
    }
}

proof fn lemma_cost_bounds_upto(m: Seq<Seq<int>>, p: Map<usize, usize>, q: Map<usize, usize>, n: int, k: int)
    requires
        0 <= k <= n,
        forall|i: int, j: int| 0 <= i < n && 0 <= j < n ==> 0 <= #[trigger] m[i][j],
        forall|i: int| 0 <= i < k ==> #[trigger] m[i][p[i as usize] as int] == 0,
        forall|i: int| 0 <= i < k ==> #[trigger] q[i as usize] < n,
    ensures
        assignment_cost(m, p, k) == 0,
        assignment_cost(m, q, k) >= 0,
    decreases k,
{
    if k > 0 {
        lemma_cost_bounds_upto(m, p, q, n, k - 1);
        assert(m[k - 1][p[(k - 1) as usize] as int] == 0);
        assert(q[(k - 1) as usize] < n);
        assert(0 <= m[k - 1][q[(k - 1) as usize] as int]);
    }
}

/// In a matrix with no negative entry, an assignment that uses only zero
/// entries costs nothing, and so no more than any other.
pub proof fn lemma_zero_assignment_is_min(m: Seq<Seq<int>>, p: Map<usize, usize>, n: int)
    requires
        n >= 0,
        forall|i: int, j: int| 0 <= i < n && 0 <= j < n ==> 0 <= #[trigger] m[i][j],
        forall|i: int| 0 <= i < n ==> #[trigger] m[i][p[i as usize] as int] == 0,
    ensures
        min_cost_assignment(m, p, n),
        assignment_cost(m, p, n) == 0,
{
    assert forall|q: Map<usize, usize>| perfect_assignment(q, n) implies assignment_cost(m, p, n)
        <= #[trigger] assignment_cost(m, q, n) by {
        assert forall|i: int| 0 <= i < n implies #[trigger] q[i as usize] < n by {
            assert(q.contains_key(i as usize));
        }
        lemma_cost_bounds_upto(m, p, q, n, n);
    }
    lemma_zero_cost(m, p, n);
}

proof fn lemma_zero_cost(m: Seq<Seq<int>>, p: Map<usize, usize>, k: int)
    requires
        forall|i: int| 0 <= i < k ==> #[trigger] m[i][p[i as usize] as int] == 0,
    ensures
        assignment_cost(m, p, k) == 0,
    decreases k,
{
    if k > 0 {
        lemma_zero_cost(m, p, k - 1);
        assert(m[k - 1][p[(k - 1) as usize] as int] == 0);
    }
}

/// No entry of a matrix is negative, so no assignment costs less than
/// nothing.
pub proof fn lemma_cost_nonneg(m: Seq<Seq<int>>, q: Map<usize, usize>, n: int)
    requires
        n >= 0,
        forall|i: int, j: int| 0 <= i < n && 0 <= j < n ==> 0 <= #[trigger] m[i][j],
        perfect_assignment(q, n),
    ensures
        assignment_cost(m, q, n) >= 0,
{
    assert forall|i: int| 0 <= i < n implies #[trigger] q[i as usize] < n by {
        assert(q.contains_key(i as usize));
    }
    lemma_cost_nonneg_upto(m, q, n, n);
}

proof fn lemma_cost_nonneg_upto(m: Seq<Seq<int>>, q: Map<usize, usize>, n: int, k: int)
    requires
        0 <= k <= n,
        forall|i: int, j: int| 0 <= i < n && 0 <= j < n ==> 0 <= #[trigger] m[i][j],
        forall|i: int| 0 <= i < k ==> #[trigger] q[i as usize] < n,
    ensures
        assignment_cost(m, q, k) >= 0,
    decreases k,
{
    if k > 0 {
        lemma_cost_nonneg_upto(m, q, n, k - 1);
        assert(q[(k - 1) as usize] < n);
        assert(0 <= m[k - 1][q[(k - 1) as usize] as int]);
    }
}

/// Numbers none of which is negative add up to no less than nothing.
pub proof fn lemma_seq_sum_nonneg(s: Seq<int>, k: int)
    requires
        forall|i: int| 0 <= i < k ==> 0 <= #[trigger] s[i],
    ensures
        seq_sum(s, k) >= 0,
    decreases k,
{
    if k > 0 {
        lemma_seq_sum_nonneg(s, k - 1);
    }
}

/// Tasks `i` and `j` trade nodes; every other task `k` runs on node `k`.
pub open spec fn swap_assignment(n: int, i: int, j: int) -> Map<usize, usize> {
    Map::new(
        |k: usize| k < n,
        |k: usize|
            if k == i {
                j as usize
            } else if k == j {
                i as usize
            } else {
                k
            },
    )
}

/// Trading the nodes of two tasks gives an assignment again.
pub proof fn lemma_swap_perfect(n: int, i: int, j: int)
    requires
        0 <= i < n,
        0 <= j < n,
        n <= usize::MAX,
    ensures
        perfect_assignment(swap_assignment(n, i, j), n),
        swap_assignment(n, i, j)[i as usize] == j,
{
    let p = swap_assignment(n, i, j);
    assert forall|v: int| 0 <= v < n implies #[trigger] col_used(p, v) by {
        if v == j {
            assert(p.contains_key(i as usize) && p[i as usize] == v);
        } else if v == i {
            assert(p.contains_key(j as usize) && p[j as usize] == v);
        } else {
            assert(p.contains_key(v as usize) && p[v as usize] == v);
        }
    }
}

/// With no negative entry, an assignment costs at least the entry it uses
/// in any one row.
pub proof fn lemma_cost_at_least_entry(m: Seq<Seq<int>>, q: Map<usize, usize>, n: int, i: int)
    requires
        0 <= i < n,
        forall|a: int, b: int| 0 <= a < n && 0 <= b < n ==> 0 <= #[trigger] m[a][b],
        perfect_assignment(q, n),
    ensures
        assignment_cost(m, q, n) >= m[i][q[i as usize] as int],
{
    assert forall|k: int| 0 <= k < n implies #[trigger] q[k as usize] < n by {
        assert(q.contains_key(k as usize));
    }
    lemma_cost_at_least_entry_upto(m, q, n, i, n);
}

proof fn lemma_cost_at_least_entry_upto(m: Seq<Seq<int>>, q: Map<usize, usize>, n: int, i: int, k: int)
    requires
        0 <= k <= n,
        0 <= i < n,
        forall|a: int, b: int| 0 <= a < n && 0 <= b < n ==> 0 <= #[trigger] m[a][b],
        forall|a: int| 0 <= a < n ==> #[trigger] q[a as usize] < n,
    ensures
        assignment_cost(m, q, k) >= 0,
        i < k ==> assignment_cost(m, q, k) >= m[i][q[i as usize] as int],
    decreases k,
{
    if k > 0 {
        lemma_cost_at_least_entry_upto(m, q, n, i, k - 1);
        assert(q[(k - 1) as usize] < n);
        assert(0 <= m[k - 1][q[(k - 1) as usize] as int]);
    }
}

/// An assignment of `n` tasks costs at most `n` times a bound on the entries.
pub proof fn lemma_cost_at_most(m: Seq<Seq<int>>, q: Map<usize, usize>, n: int, b: int, k: int)
    requires
        0 <= k <= n,
        forall|x: int, y: int| 0 <= x < n && 0 <= y < n ==> #[trigger] m[x][y] <= b,
        forall|x: int| 0 <= x < n ==> #[trigger] q[x as usize] < n,
    ensures
        assignment_cost(m, q, k) <= k * b,
    decreases k,
{
    if k > 0 {
        lemma_cost_at_most(m, q, n, b, k - 1);
        assert(q[(k - 1) as usize] < n);
        assert(m[k - 1][q[(k - 1) as usize] as int] <= b);
        assert((k - 1) * b + b == k * b) by (nonlinear_arith);
    } else {
        assert(k * b == 0) by (nonlinear_arith)
            requires
                k == 0,
        ;
    }
}

} // verus!
