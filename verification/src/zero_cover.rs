use vstd::prelude::*;
use vstd::set_lib::{lemma_int_range, lemma_len_subset, lemma_map_size, set_int_range};

use crate::matching::matrix_view;

verus! {

/// `a` (task to node) and `o` (node to task) describe one pairing of the
/// `n` tasks with the `n` nodes, over zero entries of `m`.
pub open spec fn matching_ok(m: Seq<Seq<i32>>, a: Seq<Option<usize>>, o: Seq<Option<usize>>, n: int) -> bool {
    &&& a.len() == n
    &&& o.len() == n
    &&& n <= usize::MAX
    &&& forall|r: int|
        0 <= r < n && (#[trigger] a[r]) is Some ==> {
            &&& 0 <= a[r]->0 < n
            &&& o[a[r]->0 as int] == Some(r as usize)
            &&& m[r][a[r]->0 as int] == 0
        }
    &&& forall|c: int|
        0 <= c < n && (#[trigger] o[c]) is Some ==> {
            &&& 0 <= o[c]->0 < n
            &&& a[o[c]->0 as int] == Some(c as usize)
        }
}

/// The number of tasks without a node.
pub open spec fn count_none(a: Seq<Option<usize>>) -> nat
    decreases a.len(),
{
    if a.len() == 0 {
        0
    } else {
        count_none(a.drop_last()) + if a.last() is None {
            1nat
        } else {
            0
        }
    }
}

/// The indices below `n` whose flag is set.
pub open spec fn flagged(f: Seq<bool>, n: int) -> Set<int> {
    Set::new(|i: int| 0 <= i < n && f[i])
}

/// The amount `d` at each flagged index below `n`, and nothing elsewhere.
pub open spec fn flag_amounts(f: Seq<bool>, d: int, n: int) -> Seq<int> {
    Seq::new(n as nat, |i: int| if f[i] { d } else { 0 })
}

/// Giving a task a node takes it out of the count of unpaired tasks if it
/// had none.
pub proof fn lemma_count_none_update(a: Seq<Option<usize>>, i: int, x: usize)
    requires
        0 <= i < a.len(),
    ensures
        count_none(a.update(i, Some(x))) == count_none(a) - if a[i] is None {
            1int
        } else {
            0
        },
    decreases a.len(),
{
    let b = a.update(i, Some(x));
    if i == a.len() - 1 {
        assert(b.drop_last() =~= a.drop_last());
    } else {
        lemma_count_none_update(a.drop_last(), i, x);
        assert(b.drop_last() =~= a.drop_last().update(i, Some(x)));
    }
}

/// The flagged indices below `n` are finite and no more than `n`.
pub proof fn lemma_flagged_finite(f: Seq<bool>, n: int)
    requires
        n >= 0,
    ensures
        flagged(f, n).finite(),
        flagged(f, n).len() <= n,
{
    lemma_int_range(0, n);
    lemma_len_subset(flagged(f, n), set_int_range(0, n));
}

/// Fewer than `n` flagged indices below `n` leave one unflagged.
pub proof fn lemma_unflagged_exists(f: Seq<bool>, n: int)
    requires
        0 <= n,
        flagged(f, n).len() < n,
    ensures
        exists|c: int| 0 <= c < n && !f[c],
{
    if forall|c: int| 0 <= c < n ==> f[c] {
        assert(flagged(f, n) =~= set_int_range(0, n));
        lemma_int_range(0, n);
    }
}

/// The amounts of the flagged indices add up to `d` times their number.
pub proof fn lemma_flag_amounts_sum(f: Seq<bool>, d: int, n: int, k: int)
    requires
        0 <= k <= n,
    ensures
        crate::assignment_cost::seq_sum(flag_amounts(f, d, n), k) == d * flagged(f, k).len(),
        flagged(f, k).finite(),
    decreases k,
{
    lemma_flagged_finite(f, k);
    if k == 0 {
        assert(flagged(f, 0) =~= Set::empty());
    } else {
        lemma_flag_amounts_sum(f, d, n, k - 1);
        if f[k - 1] {
            assert(flagged(f, k) =~= flagged(f, k - 1).insert(k - 1));
            assert(d * (flagged(f, k - 1).len() + 1) == d * flagged(f, k - 1).len() + d) by (nonlinear_arith);
        } else {
            assert(flagged(f, k) =~= flagged(f, k - 1));
        }
    }
}

/// A pairing of every task is a pairing of every node: no node is left.
pub proof fn lemma_all_tasks_paired(m: Seq<Seq<i32>>, a: Seq<Option<usize>>, o: Seq<Option<usize>>, n: int)
    requires
        n >= 0,
        matching_ok(m, a, o, n),
        forall|r: int| 0 <= r < n ==> (#[trigger] a[r]) is Some,
    ensures
        forall|c: int| 0 <= c < n ==> (#[trigger] o[c]) is Some,
{
    let rows = set_int_range(0, n);
    let f = |r: int| a[r]->0 as int;
    lemma_int_range(0, n);
    assert(vstd::relations::injective_on(f, rows)) by {
        assert forall|x: int, y: int| rows.contains(x) && rows.contains(y) && #[trigger] f(x) == #[trigger] f(y) implies x
            == y by {
            assert(a[x] is Some && a[y] is Some);
            assert(0 <= x < n && 0 <= y < n);
            assert(o[f(x)] == Some(x as usize));
            assert(o[f(y)] == Some(y as usize));
            assert(x as usize == y as usize);
        }
    }
    let img = rows.map(f);
    lemma_map_size(rows, img, f);
    assert(img.subset_of(rows)) by {
        assert forall|c: int| img.contains(c) implies rows.contains(c) by {
            let r = choose|r: int| rows.contains(r) && f(r) == c;
            assert(a[r] is Some);
        }
    }
    vstd::set_lib::lemma_subset_equality(img, rows);
    assert forall|c: int| 0 <= c < n implies (#[trigger] o[c]) is Some by {
        assert(rows.contains(c));
        assert(img.contains(c));
        let r = choose|r: int| rows.contains(r) && f(r) == c;
        assert(a[r] is Some);
    }
}

/// Where every node reached is paired with a task reached, and an unpaired
/// task is reached as well, fewer nodes than tasks are reached.
pub proof fn lemma_fewer_nodes_reached(
    m: Seq<Seq<i32>>,
    a: Seq<Option<usize>>,
    o: Seq<Option<usize>>,
    zr: Seq<bool>,
    zc: Seq<bool>,
    n: int,
    root: int,
)
    requires
        n >= 0,
        matching_ok(m, a, o, n),
        zr.len() == n,
        zc.len() == n,
        forall|c: int| 0 <= c < n && #[trigger] zc[c] ==> o[c] is Some && zr[o[c]->0 as int],
        0 <= root < n,
        a[root] is None,
        zr[root],
    ensures
        flagged(zc, n).len() < flagged(zr, n).len(),
{
    let cols = flagged(zc, n);
    let rows = flagged(zr, n);
    lemma_flagged_finite(zc, n);
    lemma_flagged_finite(zr, n);
    let f = |c: int| o[c]->0 as int;
    assert(vstd::relations::injective_on(f, cols)) by {
        assert forall|x: int, y: int| cols.contains(x) && cols.contains(y) && #[trigger] f(x) == #[trigger] f(y) implies x
            == y by {
            assert(o[x] is Some && o[y] is Some);
            assert(0 <= x < n && 0 <= y < n);
            assert(a[f(x)] == Some(x as usize));
            assert(a[f(y)] == Some(y as usize));
            assert(x as usize == y as usize);
        }
    }
    let img = cols.map(f);
    lemma_map_size(cols, img, f);
    assert(img.subset_of(rows.remove(root))) by {
        assert forall|r: int| img.contains(r) implies rows.remove(root).contains(r) by {
            let c = choose|c: int| cols.contains(c) && f(c) == r;
            assert(o[c] is Some);
            assert(a[r] == Some(c as usize));
        }
    }
    lemma_len_subset(img, rows.remove(root));
}

/// Node `c` was reached from task `parent[c]` over a zero entry, and the
/// node of that task, if it has one, was reached before `c`.
pub open spec fn tree_edge(
    m: Seq<Seq<i32>>,
    a: Seq<Option<usize>>,
    zr: Seq<bool>,
    zc: Seq<bool>,
    parent: Seq<usize>,
    time: Seq<int>,
    n: int,
    c: int,
) -> bool {
    let r = parent[c] as int;
    &&& 0 <= r < n
    &&& zr[r]
    &&& m[r][c] == 0
    &&& 0 <= time[c]
    &&& a[r] is Some ==> zc[a[r]->0 as int] && time[a[r]->0 as int] < time[c]
}

/// The search state: every unpaired task is reached, the task paired with
/// a reached node is reached, every reached node has its tree edge, and a
/// reached paired task has its node reached; `clock` counts the nodes
/// reached and is later than each of their times.
pub open spec fn reach_inv(
    m: Seq<Seq<i32>>,
    a: Seq<Option<usize>>,
    o: Seq<Option<usize>>,
    zr: Seq<bool>,
    zc: Seq<bool>,
    parent: Seq<usize>,
    time: Seq<int>,
    clock: int,
    n: int,
) -> bool {
    &&& matching_ok(m, a, o, n)
    &&& zr.len() == n
    &&& zc.len() == n
    &&& parent.len() == n
    &&& time.len() == n
    &&& forall|r: int| 0 <= r < n && (#[trigger] a[r]) is None ==> zr[r]
    &&& forall|c: int| 0 <= c < n && #[trigger] zc[c] && o[c] is Some ==> zr[o[c]->0 as int]
    &&& forall|c: int| 0 <= c < n && #[trigger] zc[c] ==> tree_edge(m, a, zr, zc, parent, time, n, c) && time[c] < clock
    &&& forall|r: int|
        0 <= r < n && #[trigger] zr[r] && a[r] is Some ==> zc[a[r]->0 as int] && time[a[r]->0 as int] < clock
    &&& clock == flagged(zc, n).len()
}

/// What the search ends with: besides its state, every node that a reached
/// task links to is reached.
pub open spec fn reach_ok(
    m: Seq<Seq<i32>>,
    a: Seq<Option<usize>>,
    o: Seq<Option<usize>>,
    zr: Seq<bool>,
    zc: Seq<bool>,
    parent: Seq<usize>,
    time: Seq<int>,
    n: int,
) -> bool {
    &&& reach_inv(m, a, o, zr, zc, parent, time, flagged(zc, n).len() as int, n)
    &&& forall|r: int, c: int| 0 <= r < n && 0 <= c < n && #[trigger] zr[r] && #[trigger] m[r][c] == 0 ==> zc[c]
}

/// Flagging one more index adds it to the flagged indices.
proof fn lemma_flagged_set(f: Seq<bool>, n: int, j: int)
    requires
        0 <= j < n,
        f.len() == n,
        !f[j],
    ensures
        flagged(f.update(j, true), n) == flagged(f, n).insert(j),
        flagged(f.update(j, true), n).len() == flagged(f, n).len() + 1,
{
    lemma_flagged_finite(f, n);
    assert(flagged(f.update(j, true), n) =~= flagged(f, n).insert(j));
}

/// Searches from the unpaired tasks along zero entries: a reached task
/// reaches every node it links to, and a reached node reaches the task
/// paired with it.
pub fn reach_from_unpaired(
    m2: &Vec<Vec<i32>>,
    a: &Vec<Option<usize>>,
    o: &Vec<Option<usize>>,
) -> (res: (Vec<bool>, Vec<bool>, Vec<usize>, Ghost<Seq<int>>))
    requires
        forall|r: int| 0 <= r < m2@.len() ==> (#[trigger] m2@[r])@.len() == m2@.len(),
        matching_ok(matrix_view(m2), a@, o@, m2@.len() as int),
    ensures
        reach_ok(matrix_view(m2), a@, o@, res.0@, res.1@, res.2@, res.3@, m2@.len() as int),
{
    let ghost mv = matrix_view(m2);
    let n = m2.len();
    let mut zr: Vec<bool> = Vec::new();
    let mut zc: Vec<bool> = Vec::new();
    let mut parent: Vec<usize> = Vec::new();
    let mut k: usize = 0;
    while k < n
        invariant
            n == m2@.len(),
            a@.len() == n,
            0 <= k <= n,
            zr@.len() == k,
            zc@.len() == k,
            parent@.len() == k,
            forall|r: int| 0 <= r < k ==> #[trigger] zr@[r] == (a@[r] is None),
            forall|c: int| 0 <= c < k ==> !#[trigger] zc@[c],
        decreases n - k,
    {
        zr.push(a[k].is_none());
        zc.push(false);
        parent.push(0);
        k = k + 1;
    }
    let ghost mut time: Seq<int> = Seq::new(n as nat, |i: int| 0);
    let ghost mut clock: int = 0;
    proof {
        lemma_flagged_finite(zc@, n as int);
        assert(flagged(zc@, n as int) =~= Set::empty());
    }
    loop
        invariant
            n == m2@.len(),
            mv == matrix_view(m2),
            forall|r: int| 0 <= r < n ==> (#[trigger] m2@[r])@.len() == n,
            reach_inv(mv, a@, o@, zr@, zc@, parent@, time, clock, n as int),
        decreases n - clock,
    {
        let ghost zr0 = zr@;
        let ghost zc0 = zc@;
        let ghost clock0 = clock;
        let mut changed = false;
        let mut i: usize = 0;
        proof {
            lemma_flagged_finite(zc@, n as int);
        }
        while i < n
            invariant
                n == m2@.len(),
                mv == matrix_view(m2),
                forall|r: int| 0 <= r < n ==> (#[trigger] m2@[r])@.len() == n,
                reach_inv(mv, a@, o@, zr@, zc@, parent@, time, clock, n as int),
                0 <= i <= n,
                clock <= n,
                changed ==> clock > clock0,
                !changed ==> zr@ == zr0 && zc@ == zc0 && clock == clock0,
                !changed ==> forall|r: int, c: int|
                    0 <= r < i && 0 <= c < n && #[trigger] zr@[r] && #[trigger] mv[r][c] == 0 ==> zc@[c],
            decreases n - i,
        {
            if zr[i] {
                let row = &m2[i];
                let mut j: usize = 0;
                while j < n
                    invariant
                        n == m2@.len(),
                        mv == matrix_view(m2),
                        forall|r: int| 0 <= r < n ==> (#[trigger] m2@[r])@.len() == n,
                        row@ == mv[i as int],
                        reach_inv(mv, a@, o@, zr@, zc@, parent@, time, clock, n as int),
                        0 <= i < n,
                        zr@[i as int],
                        0 <= j <= n,
                        clock <= n,
                        changed ==> clock > clock0,
                        !changed ==> zr@ == zr0 && zc@ == zc0 && clock == clock0,
                        !changed ==> forall|r: int, c: int|
                            0 <= r < i && 0 <= c < n && #[trigger] zr@[r] && #[trigger] mv[r][c] == 0 ==> zc@[c],
                        !changed ==> forall|c: int| 0 <= c < j && #[trigger] mv[i as int][c] == 0 ==> zc@[c],
                    decreases n - j,
                {
                    if row[j] == 0 && !zc[j] {
                        let ghost zr1 = zr@;
                        let ghost zc1 = zc@;
                        let ghost parent1 = parent@;
                        let ghost time1 = time;
                        let ghost clock1 = clock;
                        proof {
                            lemma_flagged_set(zc@, n as int, j as int);
                        }
                        zc.set(j, true);
                        parent.set(j, i);
                        proof {
                            time = time.update(j as int, clock);
                            clock = clock + 1;
                        }
                        if let Some(r) = o[j] {
                            zr.set(r, true);
                        }
                        changed = true;
                        proof {
                            lemma_flagged_finite(zc@, n as int);
                            let zrn = zr@;
                            let zcn = zc@;
                            assert forall|r: int| 0 <= r < n && (#[trigger] a@[r]) is None implies zrn[r] by {
                                assert(zr1[r]);
                            }
                            assert forall|c: int| 0 <= c < n && #[trigger] zcn[c] && o@[c] is Some implies zrn[o@[c]->0 as int] by {
                                if c != j {
                                    assert(zc1[c]);
                                    assert(zr1[o@[c]->0 as int]);
                                }
                            }
                            assert forall|c: int| 0 <= c < n && #[trigger] zcn[c] implies tree_edge(mv, a@, zrn, zcn, parent@, time, n as int, c) && time[c] < clock by {
                                if c != j {
                                    assert(zc1[c]);
                                    assert(tree_edge(mv, a@, zr1, zc1, parent1, time1, n as int, c));
                                    let pr = parent1[c] as int;
                                    assert(zr1[pr]);
                                    if a@[pr] is Some {
                                        let c2 = a@[pr]->0 as int;
                                        assert(zc1[c2]);
                                        assert(time1[c2] < time1[c]);
                                        assert(c2 != j);
                                    }
                                } else {
                                    assert(zr1[i as int]);
                                    assert(mv[i as int][j as int] == row@[j as int]);
                                    if a@[i as int] is Some {
                                        let c2 = a@[i as int]->0 as int;
                                        assert(zc1[c2] && time1[c2] < clock1);
                                        assert(c2 != j);
                                    }
                                }
                            }
                            assert forall|r: int| 0 <= r < n && #[trigger] zrn[r] && a@[r] is Some implies zcn[a@[r]->0 as int]
                                && time[a@[r]->0 as int] < clock by {
                                let c2 = a@[r]->0 as int;
                                if zr1[r] {
                                    assert(zc1[c2] && time1[c2] < clock1);
                                    assert(c2 != j);
                                } else {
                                    assert(o@[j as int] == Some(r as usize));
                                    assert(a@[r] == Some(j));
                                }
                            }
                        }
                    }
                    j = j + 1;
                }
            }
            i = i + 1;
        }
        if !changed {
            proof {
                lemma_flagged_finite(zc@, n as int);
            }
            let ghost t = time;
            return (zr, zc, parent, Ghost(t));
        }
    }
}

/// Pairs the tasks along the tree path that ends at node `c`, which no task
/// holds: each task on the path takes the node it reached, so the unpaired
/// task at the start of the path gets a node and every other task keeps
/// one.
pub fn augment(
    a: &mut Vec<Option<usize>>,
    o: &mut Vec<Option<usize>>,
    parent: &Vec<usize>,
    c: usize,
    Ghost(m): Ghost<Seq<Seq<i32>>>,
    Ghost(zr): Ghost<Seq<bool>>,
    Ghost(zc): Ghost<Seq<bool>>,
    Ghost(time): Ghost<Seq<int>>,
    Ghost(n): Ghost<int>,
)
    requires
        reach_ok(m, old(a)@, old(o)@, zr, zc, parent@, time, n),
        0 <= c < n,
        zc[c as int],
        old(o)@[c as int] is None,
    ensures
        matching_ok(m, final(a)@, final(o)@, n),
        count_none(final(a)@) == count_none(old(a)@) - 1,
{
    let ghost a0 = a@;
    let ghost o0 = o@;
    let mut cur = c;
    proof {
        assert forall|r: int| 0 <= r < n implies #[trigger] a@[r] != Some(cur) by {
            if a@[r] == Some(cur) {
                assert(o@[cur as int] == Some(r as usize));
            }
        }
    }
    loop
        invariant
            reach_ok(m, a0, o0, zr, zc, parent@, time, n),
            a0 == old(a)@,
            a@.len() == n,
            o@.len() == n,
            n <= usize::MAX,
            0 <= cur < n,
            zc[cur as int],
            forall|r: int| 0 <= r < n ==> #[trigger] a@[r] != Some(cur),
            forall|r: int|
                0 <= r < n && (#[trigger] a@[r]) is Some ==> {
                    &&& 0 <= a@[r]->0 < n
                    &&& o@[a@[r]->0 as int] == Some(r as usize)
                    &&& m[r][a@[r]->0 as int] == 0
                },
            forall|c2: int|
                0 <= c2 < n && c2 != cur && (#[trigger] o@[c2]) is Some ==> {
                    &&& 0 <= o@[c2]->0 < n
                    &&& a@[o@[c2]->0 as int] == Some(c2 as usize)
                },
            forall|r: int|
                0 <= r < n && #[trigger] a@[r] != a0[r] ==> a0[r] is Some && zc[a0[r]->0 as int] && time[a0[r]->0 as int]
                    >= time[cur as int],
            forall|r: int| 0 <= r < n && (#[trigger] a0[r]) is Some ==> a@[r] is Some,
            count_none(a@) == count_none(a0),
        decreases time[cur as int],
    {
        let ghost a1 = a@;
        let ghost o1 = o@;
        let r = parent[cur];
        proof {
            assert(tree_edge(m, a0, zr, zc, parent@, time, n, cur as int));
            if a1[r as int] != a0[r as int] {
                assert(time[a0[r as int]->0 as int] >= time[cur as int]);
            }
            assert(a1[r as int] == a0[r as int]);
            lemma_count_none_update(a1, r as int, cur);
        }
        let prev = a[r];
        a.set(r, Some(cur));
        o.set(cur, Some(r));
        match prev {
            None => {
                proof {
                    assert(a@ == a1.update(r as int, Some(cur)));
                    assert(a1[r as int] is None);
                    assert forall|c2: int| 0 <= c2 < n && (#[trigger] o@[c2]) is Some implies 0 <= o@[c2]->0 < n && a@[o@[c2]->0 as int]
                        == Some(c2 as usize) by {
                        if c2 != cur {
                            let r2 = o1[c2]->0 as int;
                            assert(a1[r2] == Some(c2 as usize));
                            assert(r2 != r);
                        }
                    }
                    assert forall|r2: int| 0 <= r2 < n && (#[trigger] a@[r2]) is Some implies 0 <= a@[r2]->0 < n && o@[a@[r2]->0 as int]
                        == Some(r2 as usize) && m[r2][a@[r2]->0 as int] == 0 by {
                        if r2 != r {
                            assert(a1[r2] != Some(cur));
                        }
                    }
                }
                return;
            },
            Some(c2) => {
                proof {
                    assert(a@ == a1.update(r as int, Some(cur)));
                    assert(a0[r as int] == Some(c2));
                    assert(zc[c2 as int] && time[c2 as int] < time[cur as int]);
                    assert(o1[c2 as int] == Some(r));
                    assert forall|r2: int| 0 <= r2 < n implies #[trigger] a@[r2] != Some(c2) by {
                        if r2 != r && a@[r2] == Some(c2) {
                            assert(a1[r2] == Some(c2));
                            assert(o1[c2 as int] == Some(r2 as usize));
                        }
                    }
                    assert forall|r2: int| 0 <= r2 < n && (#[trigger] a@[r2]) is Some implies 0 <= a@[r2]->0 < n && o@[a@[r2]->0 as int]
                        == Some(r2 as usize) && m[r2][a@[r2]->0 as int] == 0 by {
                        if r2 != r {
                            assert(a1[r2] != Some(cur));
                            assert(a1[r2] != Some(c2)) by {
                                if a1[r2] == Some(c2) {
                                    assert(o1[c2 as int] == Some(r2 as usize));
                                }
                            }
                        }
                    }
                    assert forall|c3: int| 0 <= c3 < n && c3 != c2 && (#[trigger] o@[c3]) is Some implies 0 <= o@[c3]->0 < n
                        && a@[o@[c3]->0 as int] == Some(c3 as usize) by {
                        if c3 != cur {
                            let r3 = o1[c3]->0 as int;
                            assert(a1[r3] == Some(c3 as usize));
                            assert(r3 != r);
                        }
                    }
                    assert forall|r2: int| 0 <= r2 < n && #[trigger] a@[r2] != a0[r2] implies a0[r2] is Some && zc[a0[r2]->0 as int]
                        && time[a0[r2]->0 as int] >= time[c2 as int] by {
                        if r2 != r {
                            assert(a1[r2] != a0[r2]);
                        }
                    }
                }
                cur = c2;
            },
        }
    }
}

/// What the search shows once no unpaired node can be reached: every
/// unpaired task is reached, a reached task links only to reached nodes,
/// and every reached node is paired with a reached task.
pub open spec fn cover_ok(
    m: Seq<Seq<i32>>,
    a: Seq<Option<usize>>,
    o: Seq<Option<usize>>,
    zr: Seq<bool>,
    zc: Seq<bool>,
    n: int,
) -> bool {
    &&& zr.len() == n
    &&& zc.len() == n
    &&& forall|r: int| 0 <= r < n && (#[trigger] a[r]) is None ==> zr[r]
    &&& forall|r: int, c: int| 0 <= r < n && 0 <= c < n && #[trigger] zr[r] && #[trigger] m[r][c] == 0 ==> zc[c]
    &&& forall|c: int| 0 <= c < n && #[trigger] zc[c] ==> o[c] is Some && zr[o[c]->0 as int]
}

/// Grows the pairing along paths of zero entries until no unpaired node
/// can be reached from an unpaired task, and returns the tasks and nodes
/// that the last search reached.
pub fn grow_pairing(m2: &Vec<Vec<i32>>, a: &mut Vec<Option<usize>>, o: &mut Vec<Option<usize>>) -> (res: (
    Vec<bool>,
    Vec<bool>,
))
    requires
        forall|r: int| 0 <= r < m2@.len() ==> (#[trigger] m2@[r])@.len() == m2@.len(),
        matching_ok(matrix_view(m2), old(a)@, old(o)@, m2@.len() as int),
    ensures
        matching_ok(matrix_view(m2), final(a)@, final(o)@, m2@.len() as int),
        cover_ok(matrix_view(m2), final(a)@, final(o)@, res.0@, res.1@, m2@.len() as int),
{
    let ghost mv = matrix_view(m2);
    let n = m2.len();
    loop
        invariant
            n == m2@.len(),
            mv == matrix_view(m2),
            forall|r: int| 0 <= r < m2@.len() ==> (#[trigger] m2@[r])@.len() == m2@.len(),
            matching_ok(mv, a@, o@, n as int),
        decreases count_none(a@),
    {
        let (zr, zc, parent, Ghost(time)) = reach_from_unpaired(m2, a, o);
        let mut c: usize = 0;
        let mut found: Option<usize> = None;
        while c < n && found.is_none()
            invariant
                n == m2@.len(),
                zc@.len() == n,
                o@.len() == n,
                0 <= c <= n,
                found matches Some(f) ==> f < n && zc@[f as int] && o@[f as int] is None,
                found is None ==> forall|c2: int| 0 <= c2 < c && #[trigger] zc@[c2] ==> o@[c2] is Some,
            decreases n - c,
        {
            if zc[c] && o[c].is_none() {
                found = Some(c);
            }
            c = c + 1;
        }
        let c = match found {
            None => {
                return (zr, zc);
            },
            Some(f) => f,
        };
        augment(a, o, &parent, c, Ghost(mv), Ghost(zr@), Ghost(zc@), Ghost(time), Ghost(n as int));
    }
}

} // verus!
