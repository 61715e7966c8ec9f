use std::collections::HashMap;
use vstd::prelude::*;

verus! {

/// The rows of a matrix as sequences.
pub open spec fn matrix_view(m: &Vec<Vec<i32>>) -> Seq<Seq<i32>> {
    Seq::new(m@.len(), |i: int| m@[i]@)
}

/// The lookups that the greedy pairing makes stay inside the matrix: a
/// column index of row `r` is itself a row, and `r` is a column index of
/// that row.
pub open spec fn pairable_shape(m: Seq<Seq<i32>>) -> bool {
    forall|r: int, c: int|
        #![trigger m[r][c]]
        0 <= r < m.len() && 0 <= c < m[r].len() ==> c < m.len() && r < m[c].len()
}

/// Task `r` can run on node `c`: the entry is zero.
pub open spec fn is_link(m: Seq<Seq<i32>>, r: int, c: int) -> bool {
    0 <= c < m[r].len() && m[r][c] == 0
}

/// Some task is already paired with node `c`.
pub open spec fn col_used(p: Map<usize, usize>, c: int) -> bool {
    exists|k: usize| p.contains_key(k) && #[trigger] p[k] == c
}

/// Node `c` is free for task `r`: linked, not yet used, and after `above`.
pub open spec fn free_link(m: Seq<Seq<i32>>, p: Map<usize, usize>, r: int, above: int, c: int) -> bool {
    is_link(m, r, c) && !col_used(p, c) && c > above
}

/// The first node from `c` on that is free for task `r`.
pub open spec fn first_free_link_from(m: Seq<Seq<i32>>, p: Map<usize, usize>, r: int, above: int, c: int) -> Option<int>
    decreases m[r].len() - c,
{
    if c < 0 || c >= m[r].len() {
        None
    } else if free_link(m, p, r, above, c) {
        Some(c)
    } else {
        first_free_link_from(m, p, r, above, c + 1)
    }
}

/// The first node from `c` on that task `r` links to.
pub open spec fn first_link_col_from(m: Seq<Seq<i32>>, r: int, c: int) -> Option<int>
    decreases m[r].len() - c,
{
    if c < 0 || c >= m[r].len() {
        None
    } else if is_link(m, r, c) {
        Some(c)
    } else {
        first_link_col_from(m, r, c + 1)
    }
}

/// The first task from `x` on that links to node `c`.
pub open spec fn first_link_row_from(m: Seq<Seq<i32>>, c: int, x: int) -> Option<int>
    decreases m.len() - x,
{
    if x < 0 || x >= m.len() {
        None
    } else if is_link(m, x, c) {
        Some(x)
    } else {
        first_link_row_from(m, c, x + 1)
    }
}

/// Every pair is a zero entry: a task holds only a node it links to.
pub open spec fn pairs_linked(m: Seq<Seq<i32>>, p: Map<usize, usize>) -> bool {
    forall|k: usize| #[trigger] p.contains_key(k) ==> is_link(m, k as int, p[k] as int)
}

/// One step of the greedy pairing, for task `r`: take its first free node;
/// failing that, look at its first linked node `c0` and the first task
/// `x0` that links to `c0`. When `x0` holds a node `c1` that `r` links to,
/// and `x0` links to a free node after `c1`, `x0` moves there and `r`
/// takes `c1`.
pub open spec fn greedy_step(m: Seq<Seq<i32>>, p: Map<usize, usize>, r: int) -> Map<usize, usize> {
    match first_free_link_from(m, p, r, -1, 0) {
        Some(c) => p.insert(r as usize, c as usize),
        None => match first_link_col_from(m, r, 0) {
            None => p,
            Some(c0) => match first_link_row_from(m, c0, 0) {
                None => p,
                Some(x0) => if p.contains_key(x0 as usize) && is_link(m, r, p[x0 as usize] as int) {
                    let c1 = p[x0 as usize] as int;
                    match first_free_link_from(m, p, x0, c1, 0) {
                        Some(v) => p.insert(r as usize, c1 as usize).insert(x0 as usize, v as usize),
                        None => p,
                    }
                } else {
                    p
                },
            },
        },
    }
}

/// The pairs after the first `k` tasks have been through the greedy step.
pub open spec fn greedy_pairs(m: Seq<Seq<i32>>, k: int) -> Map<usize, usize>
    decreases k,
{
    if k <= 0 {
        Map::empty()
    } else {
        greedy_step(m, greedy_pairs(m, k - 1), k - 1)
    }
}

/// The pairs that a row-indexed assignment stands for.
pub open spec fn pairs_of(assigned: Seq<Option<usize>>) -> Map<usize, usize> {
    Map::new(|k: usize| k < assigned.len() && assigned[k as int] is Some, |k: usize| assigned[k as int]->0)
}

/// No two tasks share a node.
pub open spec fn injective_pairs(p: Map<usize, usize>) -> bool {
    forall|a: usize, b: usize| p.contains_key(a) && p.contains_key(b) && a != b ==> #[trigger] p[a] != #[trigger] p[b]
}

/// Every task below `n` holds a node below `n`, and no other key is there.
pub open spec fn pairs_within(p: Map<usize, usize>, keys: int, n: int) -> bool {
    forall|k: usize| #[trigger] p.contains_key(k) ==> k < keys && p[k] < n
}

/// Every task below `r` that holds no node links only to nodes in use.
pub open spec fn unpaired_blocked(m: Seq<Seq<i32>>, p: Map<usize, usize>, r: int) -> bool {
    forall|k: int, c: int|
        #![trigger is_link(m, k, c), p.contains_key(k as usize)]
        0 <= k < r && !p.contains_key(k as usize) && is_link(m, k, c) ==> col_used(p, c)
}

/// What the scan for a free node finds.
pub proof fn lemma_first_free_link(m: Seq<Seq<i32>>, p: Map<usize, usize>, r: int, above: int, c0: int)
    requires
        0 <= c0,
    ensures
        first_free_link_from(m, p, r, above, c0) matches Some(x) ==> c0 <= x < m[r].len() && free_link(m, p, r, above, x)
            && forall|c: int| c0 <= c < x ==> !free_link(m, p, r, above, c),
        first_free_link_from(m, p, r, above, c0) is None ==> forall|c: int| c0 <= c ==> !free_link(m, p, r, above, c),
    decreases m[r].len() - c0,
{
    if c0 < m[r].len() {
        lemma_first_free_link(m, p, r, above, c0 + 1);
    }
}

/// What the scan for a linked node finds.
pub proof fn lemma_first_link_col(m: Seq<Seq<i32>>, r: int, c0: int)
    requires
        0 <= c0,
    ensures
        first_link_col_from(m, r, c0) matches Some(x) ==> c0 <= x < m[r].len() && is_link(m, r, x)
            && forall|c: int| c0 <= c < x ==> !is_link(m, r, c),
        first_link_col_from(m, r, c0) is None ==> forall|c: int| c0 <= c ==> !is_link(m, r, c),
    decreases m[r].len() - c0,
{
    if c0 < m[r].len() {
        lemma_first_link_col(m, r, c0 + 1);
    }
}

/// What the scan for a task linked to a node finds.
pub proof fn lemma_first_link_row(m: Seq<Seq<i32>>, c: int, x0: int)
    requires
        0 <= x0,
    ensures
        first_link_row_from(m, c, x0) matches Some(x) ==> x0 <= x < m.len() && is_link(m, x, c)
            && forall|y: int| x0 <= y < x ==> !is_link(m, y, c),
        first_link_row_from(m, c, x0) is None ==> forall|x: int| x0 <= x < m.len() ==> !is_link(m, x, c),
    decreases m.len() - x0,
{
    if x0 < m.len() {
        lemma_first_link_row(m, c, x0 + 1);
    }
}

/// The node a task turns to when it has no free node is the first one it
/// links to: a linked node with no linked node before it is the one found,
/// and the one found is linked with no linked node before it.
pub proof fn law_first_linked_node(m: Seq<Seq<i32>>, r: int, c: int)
    ensures
        (is_link(m, r, c) && forall|c2: int| 0 <= c2 < c ==> !is_link(m, r, c2)) <==> first_link_col_from(m, r, 0)
            == Some(c),
{
    lemma_first_link_col(m, r, 0);
    if is_link(m, r, c) && forall|c2: int| 0 <= c2 < c ==> !is_link(m, r, c2) {
        match first_link_col_from(m, r, 0) {
            Some(x) => {
                if x < c {
                    assert(!is_link(m, r, x));
                } else if c < x {
                    assert(!is_link(m, r, c));
                }
            },
            None => {
                assert(!is_link(m, r, c));
            },
        }
    }
}

/// The task that a blocked task's wanted node is looked up by is the first
/// task linked to that node.
pub proof fn law_first_linked_task(m: Seq<Seq<i32>>, c: int, x: int)
    requires
        0 <= x < m.len(),
    ensures
        (is_link(m, x, c) && forall|y: int| 0 <= y < x ==> !is_link(m, y, c)) <==> first_link_row_from(m, c, 0) == Some(
            x,
        ),
{
    lemma_first_link_row(m, c, 0);
    if is_link(m, x, c) && forall|y: int| 0 <= y < x ==> !is_link(m, y, c) {
        match first_link_row_from(m, c, 0) {
            Some(z) => {
                if z < x {
                    assert(!is_link(m, z, c));
                } else if x < z {
                    assert(!is_link(m, x, c));
                }
            },
            None => {
                assert(!is_link(m, x, c));
            },
        }
    }
}

/// Scans task `r` for its first free node at or after `min_col`.
fn scan_free_link(
    matrix: &Vec<Vec<i32>>,
    used: &Vec<bool>,
    Ghost(p): Ghost<Map<usize, usize>>,
    r: usize,
    min_col: usize,
) -> (res: Option<usize>)
    requires
        r < matrix@.len(),
        pairable_shape(matrix_view(matrix)),
        used@.len() == matrix@.len(),
        forall|c: int| 0 <= c < used@.len() ==> used@[c] == col_used(p, c),
    ensures
        match first_free_link_from(matrix_view(matrix), p, r as int, min_col - 1, 0) {
            Some(x) => res == Some(x as usize),
            None => res is None,
        },
{
    let ghost mv = matrix_view(matrix);
    let row = &matrix[r];
    let mut c: usize = 0;
    while c < row.len()
        invariant
            r < matrix@.len(),
            mv == matrix_view(matrix),
            row@ == mv[r as int],
            pairable_shape(mv),
            used@.len() == matrix@.len(),
            forall|c: int| 0 <= c < used@.len() ==> used@[c] == col_used(p, c),
            0 <= c <= row@.len(),
            first_free_link_from(mv, p, r as int, min_col - 1, 0) == first_free_link_from(mv, p, r as int, min_col - 1, c as int),
        decreases row@.len() - c,
    {
        proof {
            assert(mv[r as int][c as int] == row@[c as int]);
        }
        if row[c] == 0 && !used[c] && c >= min_col {
            return Some(c);
        }
        c = c + 1;
    }
    None
}

/// Scans task `r` for its first linked node.
fn scan_link_col(matrix: &Vec<Vec<i32>>, r: usize) -> (res: Option<usize>)
    requires
        r < matrix@.len(),
    ensures
        match first_link_col_from(matrix_view(matrix), r as int, 0) {
            Some(x) => res == Some(x as usize),
            None => res is None,
        },
{
    let ghost mv = matrix_view(matrix);
    let row = &matrix[r];
    let mut c: usize = 0;
    while c < row.len()
        invariant
            r < matrix@.len(),
            mv == matrix_view(matrix),
            row@ == mv[r as int],
            0 <= c <= row@.len(),
            first_link_col_from(mv, r as int, 0) == first_link_col_from(mv, r as int, c as int),
        decreases row@.len() - c,
    {
        if row[c] == 0 {
            return Some(c);
        }
        c = c + 1;
    }
    None
}

/// Scans the tasks for the first one that links to node `c`.
fn scan_link_row(matrix: &Vec<Vec<i32>>, c: usize) -> (res: Option<usize>)
    ensures
        match first_link_row_from(matrix_view(matrix), c as int, 0) {
            Some(x) => res == Some(x as usize),
            None => res is None,
        },
{
    let ghost mv = matrix_view(matrix);
    let mut x: usize = 0;
    while x < matrix.len()
        invariant
            mv == matrix_view(matrix),
            0 <= x <= matrix@.len(),
            first_link_row_from(mv, c as int, 0) == first_link_row_from(mv, c as int, x as int),
        decreases matrix@.len() - x,
    {
        proof {
            assert(mv[x as int] == matrix@[x as int]@);
        }
        if c < matrix[x].len() && matrix[x][c] == 0 {
            return Some(x);
        }
        x = x + 1;
    }
    None
}

/// The pairing invariant after `r` tasks: the assignment is the greedy
/// result, the used flags match it, and tasks left without a node could
/// not have had one.
pub open spec fn pairing_state(
    m: Seq<Seq<i32>>,
    assigned: Seq<Option<usize>>,
    used: Seq<bool>,
    r: int,
) -> bool {
    let p = pairs_of(assigned);
    &&& m.len() <= usize::MAX
    &&& assigned.len() == m.len()
    &&& used.len() == m.len()
    &&& p == greedy_pairs(m, r)
    &&& forall|c: int| 0 <= c < used.len() ==> used[c] == col_used(p, c)
    &&& injective_pairs(p)
    &&& pairs_within(p, r, m.len() as int)
    &&& unpaired_blocked(m, p, r)
    &&& pairs_linked(m, p)
}

/// Pairs task `r` with node `c`.
proof fn lemma_pair_new(
    m: Seq<Seq<i32>>,
    assigned: Seq<Option<usize>>,
    used: Seq<bool>,
    r: int,
    c: int,
)
    requires
        pairing_state(m, assigned, used, r),
        0 <= r < m.len(),
        0 <= c < m.len(),
        !col_used(pairs_of(assigned), c),
        is_link(m, r, c),
    ensures
        pairs_of(assigned.update(r, Some(c as usize))) == pairs_of(assigned).insert(r as usize, c as usize),
        pairs_linked(m, pairs_of(assigned.update(r, Some(c as usize)))),
        forall|c2: int|
            0 <= c2 < used.len() ==> used.update(c, true)[c2] == col_used(
                pairs_of(assigned.update(r, Some(c as usize))),
                c2,
            ),
        injective_pairs(pairs_of(assigned.update(r, Some(c as usize)))),
        pairs_within(pairs_of(assigned.update(r, Some(c as usize))), r + 1, m.len() as int),
        unpaired_blocked(m, pairs_of(assigned.update(r, Some(c as usize))), r + 1),
{
    let p = pairs_of(assigned);
    let a2 = assigned.update(r, Some(c as usize));
    let q = pairs_of(a2);
    assert(!p.contains_key(r as usize));
    assert(q =~= p.insert(r as usize, c as usize));
    assert forall|c2: int| 0 <= c2 < used.len() implies used.update(c, true)[c2] == col_used(q, c2) by {
        if c2 == c {
            assert(q[r as usize] == c);
        } else {
            if col_used(q, c2) {
                let k = choose|k: usize| q.contains_key(k) && #[trigger] q[k] == c2;
                assert(p[k] == c2);
            }
            if col_used(p, c2) {
                let k = choose|k: usize| p.contains_key(k) && #[trigger] p[k] == c2;
                assert(q[k] == c2);
            }
        }
    }
    assert forall|a: usize, b: usize| q.contains_key(a) && q.contains_key(b) && a != b implies #[trigger] q[a] != #[trigger] q[b] by {
        if a == r {
            assert(p[b] == q[b]);
        } else if b == r {
            assert(p[a] == q[a]);
        } else {
            assert(p[a] != p[b]);
        }
    }
    assert forall|k: int, c2: int|
        #![trigger is_link(m, k, c2), q.contains_key(k as usize)]
        0 <= k < r + 1 && !q.contains_key(k as usize) && is_link(m, k, c2) implies col_used(q, c2) by {
        assert(k != r);
        assert(!p.contains_key(k as usize));
        assert(col_used(p, c2));
        let w = choose|w: usize| p.contains_key(w) && #[trigger] p[w] == c2;
        assert(q[w] == c2);
    }
    assert forall|k: usize| #[trigger] q.contains_key(k) implies is_link(m, k as int, q[k] as int) by {
        if k != r {
            assert(p.contains_key(k));
        }
    }
}

/// Gives task `r` the node of task `node0`, and moves `node0` on to node `v`.
proof fn lemma_pair_swap(
    m: Seq<Seq<i32>>,
    assigned: Seq<Option<usize>>,
    used: Seq<bool>,
    r: int,
    node0: int,
    v: int,
)
    requires
        pairing_state(m, assigned, used, r),
        0 <= r < m.len(),
        0 <= node0 < r,
        assigned[node0] is Some,
        0 <= v < m.len(),
        !col_used(pairs_of(assigned), v),
        is_link(m, r, assigned[node0]->0 as int),
        is_link(m, node0, v),
    ensures
        pairs_linked(m, pairs_of(assigned.update(r, assigned[node0]).update(node0, Some(v as usize)))),
        pairs_of(assigned.update(r, assigned[node0]).update(node0, Some(v as usize))) == pairs_of(assigned).insert(
            r as usize,
            pairs_of(assigned)[node0 as usize],
        ).insert(node0 as usize, v as usize),
        forall|c2: int|
            0 <= c2 < used.len() ==> used.update(v, true)[c2] == col_used(
                pairs_of(assigned.update(r, assigned[node0]).update(node0, Some(v as usize))),
                c2,
            ),
        injective_pairs(pairs_of(assigned.update(r, assigned[node0]).update(node0, Some(v as usize)))),
        pairs_within(pairs_of(assigned.update(r, assigned[node0]).update(node0, Some(v as usize))), r + 1, m.len() as int),
        unpaired_blocked(m, pairs_of(assigned.update(r, assigned[node0]).update(node0, Some(v as usize))), r + 1),
{
    let p = pairs_of(assigned);
    let cur = p[node0 as usize];
    let a2 = assigned.update(r, assigned[node0]).update(node0, Some(v as usize));
    let q = pairs_of(a2);
    assert(!p.contains_key(r as usize));
    assert(p.contains_key(node0 as usize));
    assert(q =~= p.insert(r as usize, cur).insert(node0 as usize, v as usize));
    assert forall|c2: int| 0 <= c2 < used.len() implies used.update(v, true)[c2] == col_used(q, c2) by {
        if c2 == v {
            assert(q[node0 as usize] == v);
        } else {
            if col_used(q, c2) {
                let k = choose|k: usize| q.contains_key(k) && #[trigger] q[k] == c2;
                if k == r {
                    assert(p[node0 as usize] == c2);
                } else {
                    assert(p[k] == c2);
                }
            }
            if col_used(p, c2) {
                let k = choose|k: usize| p.contains_key(k) && #[trigger] p[k] == c2;
                if k == node0 {
                    assert(q[r as usize] == c2);
                } else {
                    assert(q[k] == c2);
                }
            }
        }
    }
    assert forall|a: usize, b: usize| q.contains_key(a) && q.contains_key(b) && a != b implies #[trigger] q[a] != #[trigger] q[b] by {
        if a == node0 || b == node0 {
            if a == node0 && b != r {
                assert(q[b] == p[b]);
            } else if b == node0 && a != r {
                assert(q[a] == p[a]);
            }
        } else if a == r {
            assert(q[b] == p[b]);
            assert(p[node0 as usize] != p[b]);
        } else if b == r {
            assert(q[a] == p[a]);
            assert(p[node0 as usize] != p[a]);
        } else {
            assert(p[a] != p[b]);
        }
    }
    assert forall|k: int, c2: int|
        #![trigger is_link(m, k, c2), q.contains_key(k as usize)]
        0 <= k < r + 1 && !q.contains_key(k as usize) && is_link(m, k, c2) implies col_used(q, c2) by {
        assert(k != r && k != node0);
        assert(!p.contains_key(k as usize));
        assert(col_used(p, c2));
        let w = choose|w: usize| p.contains_key(w) && #[trigger] p[w] == c2;
        if w == node0 {
            assert(q[r as usize] == c2);
        } else {
            assert(q[w] == c2);
        }
    }
    assert forall|k: usize| #[trigger] q.contains_key(k) implies is_link(m, k as int, q[k] as int) by {
        if k != r && k != node0 {
            assert(p.contains_key(k));
        }
    }
}

/// Leaves task `r` without a node; it could not have had one.
proof fn lemma_pair_none(m: Seq<Seq<i32>>, assigned: Seq<Option<usize>>, used: Seq<bool>, r: int)
    requires
        pairing_state(m, assigned, used, r),
        0 <= r < m.len(),
        forall|c: int| is_link(m, r, c) ==> col_used(pairs_of(assigned), c),
    ensures
        pairs_within(pairs_of(assigned), r + 1, m.len() as int),
        unpaired_blocked(m, pairs_of(assigned), r + 1),
{
    let p = pairs_of(assigned);
    assert forall|k: int, c2: int|
        #![trigger is_link(m, k, c2), p.contains_key(k as usize)]
        0 <= k < r + 1 && !p.contains_key(k as usize) && is_link(m, k, c2) implies col_used(p, c2) by {
        if k < r {
        }
    }
}

/// The greedy pairing as a row-indexed assignment together with the
/// flags of the nodes in use.
pub fn greedy_assignment(matrix: &Vec<Vec<i32>>) -> (r: (Vec<Option<usize>>, Vec<bool>))
    requires
        pairable_shape(matrix_view(matrix)),
    ensures
        pairing_state(matrix_view(matrix), r.0@, r.1@, matrix@.len() as int),
{
    let ghost mv = matrix_view(matrix);
    let n = matrix.len();
    let mut assigned: Vec<Option<usize>> = Vec::new();
    let mut used: Vec<bool> = Vec::new();
    let mut i: usize = 0;
    while i < n
        invariant
            n == matrix@.len(),
            0 <= i <= n,
            assigned@.len() == i,
            used@.len() == i,
            assigned@ == Seq::<Option<usize>>::new(i as nat, |k: int| None),
            used@ == Seq::<bool>::new(i as nat, |k: int| false),
        decreases n - i,
    {
        assigned.push(None);
        used.push(false);
        proof {
            assert(assigned@ =~= Seq::<Option<usize>>::new((i + 1) as nat, |k: int| None));
            assert(used@ =~= Seq::<bool>::new((i + 1) as nat, |k: int| false));
        }
        i = i + 1;
    }
    proof {
        assert(pairs_of(assigned@) =~= Map::<usize, usize>::empty());
        assert(greedy_pairs(mv, 0) == Map::<usize, usize>::empty());
    }
    let mut r: usize = 0;
    while r < n
        invariant
            mv == matrix_view(matrix),
            pairable_shape(mv),
            n == matrix@.len(),
            n == mv.len(),
            0 <= r <= n,
            pairing_state(mv, assigned@, used@, r as int),
        decreases n - r,
    {
        let ghost p = pairs_of(assigned@);
        let ghost a0 = assigned@;
        let ghost u0 = used@;
        proof {
            lemma_first_free_link(mv, p, r as int, -1, 0);
            assert(!p.contains_key(r as usize));
        }
        let free = scan_free_link(matrix, &used, Ghost(p), r, 0);
        match free {
            Some(c) => {
                proof {
                    assert(is_link(mv, r as int, c as int));
                    assert(mv[r as int][c as int] == 0);
                    lemma_pair_new(mv, a0, u0, r as int, c as int);
                }
                assigned.set(r, Some(c));
                used.set(c, true);
            },
            None => {
                proof {
                    lemma_first_link_col(mv, r as int, 0);
                    assert forall|c: int| is_link(mv, r as int, c) implies col_used(p, c) by {
                        assert(!free_link(mv, p, r as int, -1, c));
                    }
                }
                let first_col = scan_link_col(matrix, r);
                match first_col {
                    None => {
                        proof {
                            lemma_pair_none(mv, a0, u0, r as int);
                        }
                    },
                    Some(c0) => {
                        proof {
                            lemma_first_link_row(mv, c0 as int, 0);
                        }
                        match scan_link_row(matrix, c0) {
                            None => {
                                proof {
                                    lemma_pair_none(mv, a0, u0, r as int);
                                }
                            },
                            Some(x0) => {
                                let mut moved = false;
                                if let Some(c1) = assigned[x0] {
                                    proof {
                                        assert(p.contains_key(x0) && p[x0] == c1);
                                        assert(x0 < r && c1 < n);
                                        assert(mv[r as int].len() == matrix@[r as int]@.len());
                                    }
                                    if c1 < matrix[r].len() && matrix[r][c1] == 0 {
                                        proof {
                                            assert(is_link(mv, r as int, c1 as int));
                                            lemma_first_free_link(mv, p, x0 as int, c1 as int, 0);
                                        }
                                        let next = scan_free_link(matrix, &used, Ghost(p), x0, c1 + 1);
                                        if let Some(v) = next {
                                            proof {
                                                assert(is_link(mv, x0 as int, v as int));
                                                lemma_pair_swap(mv, a0, u0, r as int, x0 as int, v as int);
                                            }
                                            assigned.set(r, Some(c1));
                                            assigned.set(x0, Some(v));
                                            used.set(v, true);
                                            moved = true;
                                        }
                                    } else {
                                        proof {
                                            assert(!is_link(mv, r as int, c1 as int));
                                        }
                                    }
                                }
                                if !moved {
                                    proof {
                                        lemma_pair_none(mv, a0, u0, r as int);
                                    }
                                }
                            },
                        }
                    },
                }
            },
        }
        r = r + 1;
    }
    (assigned, used)
}

/// Pairs tasks (rows) with nodes (columns) greedily over the zero entries
/// of the matrix, task by task.
pub fn pairs_for_matrix(matrix: &Vec<Vec<i32>>) -> (pairs: HashMap<usize, usize>)
    requires
        pairable_shape(matrix_view(matrix)),
    ensures
        pairs@ == greedy_pairs(matrix_view(matrix), matrix@.len() as int),
        injective_pairs(pairs@),
        pairs_within(pairs@, matrix@.len() as int, matrix@.len() as int),
        pairs_linked(matrix_view(matrix), pairs@),
        // the pairing is maximal: a task left without a node links only to
        // nodes that are taken
        unpaired_blocked(matrix_view(matrix), pairs@, matrix@.len() as int),
{
    let (assigned, _) = greedy_assignment(matrix);
    pairs_from_assignment(&assigned)
}

/// The pairs of a row-indexed assignment, as a map from task to node.
pub fn pairs_from_assignment(assigned: &Vec<Option<usize>>) -> (pairs: HashMap<usize, usize>)
    ensures
        pairs@ == pairs_of(assigned@),
{
    let n = assigned.len();
    let mut pairs: HashMap<usize, usize> = HashMap::new();
    let mut k: usize = 0;
    while k < n
        invariant
            n == assigned@.len(),
            0 <= k <= n,
            pairs@ == pairs_of(assigned@.subrange(0, k as int)),
        decreases n - k,
    {
        if let Some(c) = assigned[k] {
            pairs.insert(k, c);
        }
        proof {
            assert(pairs_of(assigned@.subrange(0, k + 1)) =~= if assigned@[k as int] is Some {
                pairs_of(assigned@.subrange(0, k as int)).insert(k, assigned@[k as int]->0)
            } else {
                pairs_of(assigned@.subrange(0, k as int))
            });
        }
        k = k + 1;
    }
    proof {
        assert(assigned@.subrange(0, n as int) =~= assigned@);
    }
    pairs
}

} // verus!
