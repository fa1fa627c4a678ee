//! The safety check of the banker's algorithm: can every task run to
//! completion in some order, each one being granted what it still needs out of
//! what is free plus what the tasks before it gave back?
use vstd::prelude::*;

verus! {

/// Units of resource `r` held by the tasks marked in `fin` among tasks `0..k`.
pub open spec fn held_by(alloc: Seq<Seq<int>>, fin: Seq<bool>, r: int, k: int) -> int
    decreases k,
{
    if k <= 0 {
        0
    } else {
        held_by(alloc, fin, r, k - 1) + if fin[k - 1] {
            alloc[k - 1][r]
        } else {
            0
        }
    }
}

/// Units of resource `r` free once the tasks marked in `fin` have finished and
/// given back what they hold.
pub open spec fn available(alloc: Seq<Seq<int>>, work: Seq<int>, fin: Seq<bool>, r: int) -> int {
    work[r] + held_by(alloc, fin, r, fin.len() as int)
}

/// Task `t` can be granted all it needs once the tasks in `fin` have finished.
pub open spec fn can_finish(
    need: Seq<Seq<int>>,
    alloc: Seq<Seq<int>>,
    work: Seq<int>,
    fin: Seq<bool>,
    t: int,
) -> bool {
    forall|r: int| 0 <= r < work.len() ==> #[trigger] need[t][r] <= available(alloc, work, fin, r)
}

/// The tasks that come before position `i` of `order`, as marks over `n` tasks.
pub open spec fn done_before(order: Seq<int>, i: int, n: int) -> Seq<bool> {
    Seq::new(n as nat, |t: int| order.subrange(0, i).contains(t))
}

/// `order` runs tasks one at a time, none twice, and each one in turn can be
/// granted what it needs once the tasks before it have finished.
pub open spec fn is_runnable(
    need: Seq<Seq<int>>,
    alloc: Seq<Seq<int>>,
    work: Seq<int>,
    order: Seq<int>,
) -> bool {
    let n = need.len() as int;
    &&& order.no_duplicates()
    &&& forall|i: int| 0 <= i < order.len() ==> 0 <= #[trigger] order[i] < n
    &&& forall|i: int|
        0 <= i < order.len() ==> can_finish(
            need,
            alloc,
            work,
            #[trigger] done_before(order, i, n),
            order[i],
        )
}

/// `order` runs every task exactly once, and each one in turn can be granted
/// what it needs.
pub open spec fn is_safe_order(
    need: Seq<Seq<int>>,
    alloc: Seq<Seq<int>>,
    work: Seq<int>,
    order: Seq<int>,
) -> bool {
    &&& is_runnable(need, alloc, work, order)
    &&& forall|t: int| 0 <= t < need.len() ==> #[trigger] order.contains(t)
}

/// However the tasks are run one after another, the units free of each
/// resource never exceed `bound`.
pub open spec fn counts_fit(need: Seq<Seq<int>>, alloc: Seq<Seq<int>>, work: Seq<int>, bound: int) -> bool {
    forall|order: Seq<int>|
        #[trigger] is_runnable(need, alloc, work, order) ==> forall|r: int|
            0 <= r < work.len() ==> #[trigger] available(
                alloc,
                work,
                done_before(order, order.len() as int, need.len() as int),
                r,
            ) <= bound
}

/// Some order lets every task finish.
pub open spec fn is_safe(need: Seq<Seq<int>>, alloc: Seq<Seq<int>>, work: Seq<int>) -> bool {
    exists|order: Seq<int>| is_safe_order(need, alloc, work, order)
}

/// One row per task, one column per resource, nothing held is negative.
pub open spec fn well_shaped(need: Seq<Seq<int>>, alloc: Seq<Seq<int>>, work: Seq<int>) -> bool {
    &&& need.len() == alloc.len()
    &&& forall|t: int|
        0 <= t < need.len() ==> #[trigger] need[t].len() == work.len() && alloc[t].len()
            == work.len()
    &&& forall|t: int, r: int| 0 <= t < alloc.len() && 0 <= r < work.len() ==> 0 <= #[trigger] alloc[t][r]
}

pub open spec fn all_marked(n: int) -> Seq<bool> {
    Seq::new(n as nat, |t: int| true)
}

pub open spec fn int_row(row: Seq<u32>) -> Seq<int> {
    Seq::new(row.len(), |j: int| row[j] as int)
}

pub open spec fn int_matrix(m: Seq<Vec<u32>>) -> Seq<Seq<int>> {
    Seq::new(m.len(), |i: int| int_row(m[i]@))
}

pub open spec fn wide_row(row: Seq<u64>) -> Seq<int> {
    Seq::new(row.len(), |j: int| row[j] as int)
}

/// Tasks not yet marked among `0..k`.
pub open spec fn unmarked(fin: Seq<bool>, k: int) -> nat
    decreases k,
{
    if k <= 0 {
        0
    } else {
        unmarked(fin, k - 1) + if fin[k - 1] {
            0nat
        } else {
            1nat
        }
    }
}

pub open spec fn row_fits(row: Seq<u32>, work: Seq<u64>) -> bool {
    forall|r: int| 0 <= r < work.len() ==> #[trigger] row[r] <= work[r]
}

proof fn lemma_held_by_monotone(
    alloc: Seq<Seq<int>>,
    small: Seq<bool>,
    big: Seq<bool>,
    r: int,
    k: int,
)
    requires
        0 <= k <= small.len(),
        small.len() == big.len(),
        forall|t: int| 0 <= t < k ==> #[trigger] small[t] ==> big[t],
        forall|t: int| 0 <= t < k ==> 0 <= #[trigger] alloc[t][r],
    ensures
        held_by(alloc, small, r, k) <= held_by(alloc, big, r, k),
    decreases k,
{
    if k > 0 {
        lemma_held_by_monotone(alloc, small, big, r, k - 1);
        assert(small[k - 1] ==> big[k - 1]);
        assert(0 <= alloc[k - 1][r]);
    }
}

proof fn lemma_held_by_mark(alloc: Seq<Seq<int>>, fin: Seq<bool>, t: int, r: int, k: int)
    requires
        0 <= t < fin.len(),
        !fin[t],
        0 <= k <= fin.len(),
    ensures
        held_by(alloc, fin.update(t, true), r, k) == held_by(alloc, fin, r, k) + if t < k {
            alloc[t][r]
        } else {
            0
        },
    decreases k,
{
    if k > 0 {
        lemma_held_by_mark(alloc, fin, t, r, k - 1);
    }
}

proof fn lemma_unmarked_mark(fin: Seq<bool>, t: int, k: int)
    requires
        0 <= t < fin.len(),
        !fin[t],
        0 <= k <= fin.len(),
    ensures
        unmarked(fin.update(t, true), k) + if t < k {
            1nat
        } else {
            0nat
        } == unmarked(fin, k),
    decreases k,
{
    if k > 0 {
        lemma_unmarked_mark(fin, t, k - 1);
    }
}

/// The first position of `order` whose task is not marked in `fin`.
proof fn lemma_first_unmarked(order: Seq<int>, fin: Seq<bool>, j: int) -> (first: int)
    requires
        0 <= j < order.len(),
        forall|i: int| 0 <= i < order.len() ==> 0 <= #[trigger] order[i] < fin.len(),
        !fin[order[j]],
    ensures
        0 <= first <= j,
        !fin[order[first]],
        forall|i: int| 0 <= i < first ==> fin[#[trigger] order[i]],
    decreases j,
{
    if exists|i: int| 0 <= i < j && !fin[#[trigger] order[i]] {
        let i = choose|i: int| 0 <= i < j && !fin[#[trigger] order[i]];
        lemma_first_unmarked(order, fin, i)
    } else {
        j
    }
}

/// When no unfinished task can be granted what it needs after the tasks of
/// `fin` have finished, every task of a runnable order is among `fin`.
proof fn lemma_runnable_within_settled(
    need: Seq<Seq<int>>,
    alloc: Seq<Seq<int>>,
    work: Seq<int>,
    fin: Seq<bool>,
    order: Seq<int>,
)
    requires
        well_shaped(need, alloc, work),
        fin.len() == need.len(),
        forall|t: int|
            0 <= t < fin.len() && !fin[t] ==> !#[trigger] can_finish(need, alloc, work, fin, t),
        is_runnable(need, alloc, work, order),
    ensures
        forall|i: int| 0 <= i < order.len() ==> fin[#[trigger] order[i]],
{
    let n = need.len() as int;
    if exists|i: int| 0 <= i < order.len() && !fin[#[trigger] order[i]] {
        let j0 = choose|i: int| 0 <= i < order.len() && !fin[#[trigger] order[i]];
        let j = lemma_first_unmarked(order, fin, j0);
        let before = done_before(order, j, n);
        assert forall|t: int| 0 <= t < n && #[trigger] before[t] implies fin[t] by {
            let k = choose|k: int| 0 <= k < order.subrange(0, j).len() && order.subrange(0, j)[k] == t;
            assert(order[k] == t);
        }
        assert forall|r: int| 0 <= r < work.len() implies #[trigger] need[order[j]][r] <= available(
            alloc,
            work,
            fin,
            r,
        ) by {
            assert forall|t: int| 0 <= t < n implies 0 <= #[trigger] alloc[t][r] by {
                assert(need[t].len() == work.len());
            }
            lemma_held_by_monotone(alloc, before, fin, r, n);
            assert(can_finish(need, alloc, work, before, order[j]));
        }
        assert(can_finish(need, alloc, work, fin, order[j]));
    }
}

/// The tasks marked by a runnable order are a subset of `fin` when `fin` is
/// settled, so the units they free are at most those `fin` frees.
proof fn lemma_runnable_frees_less(
    need: Seq<Seq<int>>,
    alloc: Seq<Seq<int>>,
    work: Seq<int>,
    fin: Seq<bool>,
    order: Seq<int>,
    r: int,
)
    requires
        well_shaped(need, alloc, work),
        fin.len() == need.len(),
        0 <= r < work.len(),
        forall|t: int|
            0 <= t < fin.len() && !fin[t] ==> !#[trigger] can_finish(need, alloc, work, fin, t),
        is_runnable(need, alloc, work, order),
    ensures
        available(alloc, work, done_before(order, order.len() as int, need.len() as int), r)
            <= available(alloc, work, fin, r),
{
    let n = need.len() as int;
    lemma_runnable_within_settled(need, alloc, work, fin, order);
    let marks = done_before(order, order.len() as int, n);
    assert forall|t: int| 0 <= t < n && #[trigger] marks[t] implies fin[t] by {
        assert(order.subrange(0, order.len() as int) =~= order);
        let k = choose|k: int| 0 <= k < order.len() && order[k] == t;
        assert(fin[order[k]]);
    }
    assert forall|t: int| 0 <= t < n implies 0 <= #[trigger] alloc[t][r] by {
        assert(need[t].len() == work.len());
    }
    lemma_held_by_monotone(alloc, marks, fin, r, n);
}

/// When no unfinished task can be granted what it needs after the tasks of
/// `fin` have finished, and some task is unfinished, no safe order exists.
proof fn lemma_stuck_is_unsafe(
    need: Seq<Seq<int>>,
    alloc: Seq<Seq<int>>,
    work: Seq<int>,
    fin: Seq<bool>,
    stuck: int,
)
    requires
        well_shaped(need, alloc, work),
        fin.len() == need.len(),
        0 <= stuck < fin.len(),
        !fin[stuck],
        forall|t: int|
            0 <= t < fin.len() && !fin[t] ==> !#[trigger] can_finish(need, alloc, work, fin, t),
    ensures
        !is_safe(need, alloc, work),
{
    assert forall|order: Seq<int>| !is_safe_order(need, alloc, work, order) by {
        if is_safe_order(need, alloc, work, order) {
            lemma_runnable_within_settled(need, alloc, work, fin, order);
            assert(order.contains(stuck));
            let j = choose|i: int| 0 <= i < order.len() && order[i] == stuck;
            assert(fin[order[j]]);
        }
    }
}

fn fits(row: &Vec<u32>, work: &Vec<u64>) -> (ok: bool)
    requires
        row.len() == work.len(),
    ensures
        ok == row_fits(row@, work@),
{
    let mut r: usize = 0;
    while r < work.len()
        invariant
            row.len() == work.len(),
            r <= work.len(),
            forall|q: int| 0 <= q < r ==> #[trigger] row@[q] <= work@[q],
        decreases work.len() - r,
    {
        if row[r] as u64 > work[r] {
            return false;
        }
        r = r + 1;
    }
    true
}

/// The first unfinished task whose needs all fit in `work`.
fn first_ready(need: &Vec<Vec<u32>>, finished: &Vec<bool>, work: &Vec<u64>) -> (pick: Option<
    usize,
>)
    requires
        need.len() == finished.len(),
        forall|t: int| 0 <= t < need.len() ==> (#[trigger] need@[t]).len() == work.len(),
    ensures
        match pick {
            Some(t) => {
                &&& t < need.len()
                &&& !finished@[t as int]
                &&& row_fits(need@[t as int]@, work@)
                &&& forall|u: int|
                    0 <= u < t && !finished@[u] ==> !row_fits(#[trigger] need@[u]@, work@)
            },
            None => forall|u: int|
                0 <= u < need.len() && !finished@[u] ==> !row_fits(#[trigger] need@[u]@, work@),
        },
{
    let mut t: usize = 0;
    while t < need.len()
        invariant
            need.len() == finished.len(),
            forall|u: int| 0 <= u < need.len() ==> (#[trigger] need@[u]).len() == work.len(),
            t <= need.len(),
            forall|u: int| 0 <= u < t && !finished@[u] ==> !row_fits(#[trigger] need@[u]@, work@),
        decreases need.len() - t,
    {
        if !finished[t] && fits(&need[t], work) {
            return Some(t);
        }
        t = t + 1;
    }
    None
}

/// The matrices and free units are shaped for the safety check, and no run
/// of the tasks frees more of a resource than a `u64` holds.
pub open spec fn settle_ready(need: Seq<Vec<u32>>, alloc: Seq<Vec<u32>>, work: Seq<u64>) -> bool {
    &&& need.len() == alloc.len()
    &&& forall|t: int|
        0 <= t < need.len() ==> (#[trigger] need[t]).len() == work.len() && alloc[t].len()
            == work.len()
    &&& counts_fit(int_matrix(need), int_matrix(alloc), wide_row(work), u64::MAX as int)
}

pub(crate) proof fn lemma_settle_ready_shaped(need: Seq<Vec<u32>>, alloc: Seq<Vec<u32>>, work: Seq<u64>)
    requires
        need.len() == alloc.len(),
        forall|t: int|
            0 <= t < need.len() ==> (#[trigger] need[t]).len() == work.len() && alloc[t].len()
                == work.len(),
    ensures
        well_shaped(int_matrix(need), int_matrix(alloc), wide_row(work)),
{
    let need_m = int_matrix(need);
    let alloc_m = int_matrix(alloc);
    let work0 = wide_row(work);
    assert forall|t: int| 0 <= t < need_m.len() implies #[trigger] need_m[t].len() == work0.len()
        && alloc_m[t].len() == work0.len() by {
        assert(need[t].len() == work.len());
    }
    assert forall|t: int, r: int| 0 <= t < alloc_m.len() && 0 <= r < work0.len() implies 0
        <= #[trigger] alloc_m[t][r] by {
        assert(need[t].len() == work.len());
        assert(alloc_m[t][r] == alloc[t]@[r] as int);
    }
}

/// Lets tasks finish one after another, first the lowest-numbered one whose
/// needs fit, each giving back what it holds, until no unfinished task fits.
/// Returns which tasks finished and the units free at the end.
fn settle(need: &Vec<Vec<u32>>, alloc: &Vec<Vec<u32>>, work: Vec<u64>) -> (res: (Vec<bool>, Vec<u64>))
    requires
        settle_ready(need@, alloc@, work@),
    ensures
        res.0.len() == need.len(),
        res.1.len() == work.len(),
        forall|r: int|
            0 <= r < work.len() ==> #[trigger] res.1@[r] == available(
                int_matrix(alloc@),
                wide_row(work@),
                res.0@,
                r,
            ),
        forall|t: int|
            0 <= t < need.len() && !res.0@[t] ==> !#[trigger] can_finish(
                int_matrix(need@),
                int_matrix(alloc@),
                wide_row(work@),
                res.0@,
                t,
            ),
        exists|order: Seq<int>|
            is_runnable(int_matrix(need@), int_matrix(alloc@), wide_row(work@), order)
                && done_before(order, order.len() as int, need.len() as int) == res.0@,
{
    let ghost need_m = int_matrix(need@);
    let ghost alloc_m = int_matrix(alloc@);
    let ghost work0 = wide_row(work@);
    let n = need.len();
    let nr = work.len();
    proof {
        lemma_settle_ready_shaped(need@, alloc@, work@);
    }
    let mut work = work;
    let mut finished: Vec<bool> = Vec::new();
    while finished.len() < n
        invariant
            finished.len() <= n,
            forall|t: int| 0 <= t < finished.len() ==> !#[trigger] finished@[t],
        decreases n - finished.len(),
    {
        finished.push(false);
    }
    let ghost mut order: Seq<int> = Seq::empty();
    proof {
        assert forall|r: int| 0 <= r < nr implies #[trigger] work@[r] == available(
            alloc_m,
            work0,
            finished@,
            r,
        ) by {
            lemma_held_by_zero(alloc_m, finished@, r, n as int);
        }
        assert(done_before(order, 0, n as int) =~= finished@);
    }
    let mut stuck = false;
    while !stuck
        invariant
            n == need.len(),
            nr == work.len(),
            n == alloc.len(),
            need_m == int_matrix(need@),
            alloc_m == int_matrix(alloc@),
            work0.len() == nr,
            well_shaped(need_m, alloc_m, work0),
            counts_fit(need_m, alloc_m, work0, u64::MAX as int),
            forall|t: int|
                0 <= t < n ==> (#[trigger] need@[t]).len() == nr && alloc@[t].len() == nr,
            finished.len() == n,
            forall|r: int| 0 <= r < nr ==> #[trigger] work@[r] == available(alloc_m, work0, finished@, r),
            is_runnable(need_m, alloc_m, work0, order),
            done_before(order, order.len() as int, n as int) == finished@,
            forall|t: int| 0 <= t < n ==> (finished@[t] <==> #[trigger] order.contains(t)),
            stuck ==> forall|t: int|
                0 <= t < n && !finished@[t] ==> !#[trigger] can_finish(need_m, alloc_m, work0, finished@, t),
        decreases 2 * unmarked(finished@, n as int) + if stuck {
            0int
        } else {
            1int
        },
    {
        let pick = first_ready(need, &finished, &work);
        match pick {
            Some(t) => {
                let ghost old_fin = finished@;
                let ghost old_order = order;
                let ghost new_order = order.push(t as int);
                proof {
                    assert forall|r: int| 0 <= r < nr implies #[trigger] need_m[t as int][r] <= available(
                        alloc_m,
                        work0,
                        old_fin,
                        r,
                    ) by {
                        assert(need@[t as int]@[r] <= work@[r]);
                    }
                    assert(can_finish(need_m, alloc_m, work0, old_fin, t as int));
                    assert(!order.contains(t as int));
                    assert forall|i: int| 0 <= i < old_order.len() implies done_before(
                        new_order,
                        i,
                        n as int,
                    ) == done_before(old_order, i, n as int) by {
                        assert(new_order.subrange(0, i) =~= old_order.subrange(0, i));
                    }
                    assert(done_before(new_order, old_order.len() as int, n as int) =~= old_fin) by {
                        assert(new_order.subrange(0, old_order.len() as int) =~= old_order);
                    }
                    assert forall|i: int| 0 <= i < new_order.len() implies can_finish(
                        need_m,
                        alloc_m,
                        work0,
                        #[trigger] done_before(new_order, i, n as int),
                        new_order[i],
                    ) by {
                        if i < old_order.len() {
                            assert(done_before(new_order, i, n as int) == done_before(old_order, i, n as int));
                        }
                    }
                    assert(is_runnable(need_m, alloc_m, work0, new_order));
                    assert(done_before(new_order, new_order.len() as int, n as int) =~= old_fin.update(
                        t as int,
                        true,
                    )) by {
                        assert(new_order.subrange(0, new_order.len() as int) =~= new_order);
                        assert forall|u: int| 0 <= u < n implies #[trigger] new_order.contains(u) == (u
                            == t || old_order.contains(u)) by {
                            if new_order.contains(u) {
                                let k = choose|k: int| 0 <= k < new_order.len() && new_order[k] == u;
                                if k < old_order.len() {
                                    assert(old_order[k] == u);
                                }
                            }
                            if old_order.contains(u) {
                                let k = choose|k: int| 0 <= k < old_order.len() && old_order[k] == u;
                                assert(new_order[k] == u);
                            }
                            if u == t {
                                assert(new_order[old_order.len() as int] == u);
                            }
                        }
                    }
                }
                finished.set(t, true);
                let mut r: usize = 0;
                while r < nr
                    invariant
                        nr == work.len(),
                        n == alloc.len(),
                        t < n,
                        alloc_m == int_matrix(alloc@),
                        well_shaped(need_m, alloc_m, work0),
                        work0.len() == nr,
                        old_fin.len() == n,
                        !old_fin[t as int],
                        finished@ == old_fin.update(t as int, true),
                        alloc@[t as int].len() == nr,
                        counts_fit(need_m, alloc_m, work0, u64::MAX as int),
                        is_runnable(need_m, alloc_m, work0, new_order),
                        done_before(new_order, new_order.len() as int, n as int) == finished@,
                        r <= nr,
                        forall|q: int|
                            0 <= q < r ==> #[trigger] work@[q] == available(alloc_m, work0, finished@, q),
                        forall|q: int|
                            r <= q < nr ==> #[trigger] work@[q] == available(alloc_m, work0, old_fin, q),
                    decreases nr - r,
                {
                    proof {
                        lemma_held_by_mark(alloc_m, old_fin, t as int, r as int, n as int);
                        assert(available(
                            alloc_m,
                            work0,
                            done_before(new_order, new_order.len() as int, n as int),
                            r as int,
                        ) <= u64::MAX);
                        assert(alloc_m[t as int][r as int] == alloc@[t as int]@[r as int]);
                    }
                    let add = alloc[t][r] as u64;
                    let cur = work[r];
                    work.set(r, cur + add);
                    r = r + 1;
                }
                proof {
                    lemma_unmarked_mark(old_fin, t as int, n as int);
                    order = new_order;
                    assert forall|u: int| 0 <= u < n implies (finished@[u] <==> #[trigger] order.contains(u)) by {
                        assert(order.subrange(0, order.len() as int) =~= order);
                        assert(done_before(order, order.len() as int, n as int)[u] == finished@[u]);
                    }
                }
            },
            None => {
                proof {
                    assert forall|u: int| 0 <= u < n && !finished@[u] implies !#[trigger] can_finish(
                        need_m,
                        alloc_m,
                        work0,
                        finished@,
                        u,
                    ) by {
                        assert(!row_fits(need@[u]@, work@));
                        let r = choose|r: int| 0 <= r < work.len() && !(need@[u]@[r] <= work@[r]);
                        assert(need_m[u][r] == need@[u]@[r]);
                    }
                }
                stuck = true;
            },
        }
    }
    (finished, work)
}

/// Runs the safety check on a need matrix, an allocation matrix (one row per
/// task, one column per resource) and the units free now. Returns true when
/// no order lets every task finish: some task can never be granted what it
/// asks for.
pub fn find_unsafe(need: &Vec<Vec<u32>>, alloc: &Vec<Vec<u32>>, work: Vec<u64>) -> (deadlock: bool)
    requires
        settle_ready(need@, alloc@, work@),
    ensures
        deadlock == !is_safe(int_matrix(need@), int_matrix(alloc@), wide_row(work@)),
{
    let ghost work0 = wide_row(work@);
    let ghost work_v = work@;
    let n = need.len();
    let (finished, _free) = settle(need, alloc, work);
    let mut deadlock = false;
    let mut t: usize = 0;
    while t < n
        invariant
            finished.len() == n,
            t <= n,
            deadlock <==> exists|u: int| 0 <= u < t && !#[trigger] finished@[u],
        decreases n - t,
    {
        if !finished[t] {
            deadlock = true;
        }
        t = t + 1;
    }
    proof {
        let need_m = int_matrix(need@);
        let alloc_m = int_matrix(alloc@);
        lemma_settle_ready_shaped(need@, alloc@, work_v);
        if deadlock {
            let u = choose|u: int| 0 <= u < n && !#[trigger] finished@[u];
            lemma_stuck_is_unsafe(need_m, alloc_m, work0, finished@, u);
        } else {
            let order = choose|order: Seq<int>|
                is_runnable(need_m, alloc_m, work0, order) && done_before(
                    order,
                    order.len() as int,
                    n as int,
                ) == finished@;
            assert forall|u: int| 0 <= u < n implies #[trigger] order.contains(u) by {
                assert(done_before(order, order.len() as int, n as int)[u]);
                assert(order.subrange(0, order.len() as int) =~= order);
            }
            assert(is_safe_order(need_m, alloc_m, work0, order));
        }
    }
    deadlock
}

/// Whether every run of the tasks keeps the free units of each resource
/// within a `u32`: the safety check counts units in `u32` and overflows
/// otherwise.
pub fn counts_fit_u32(need: &Vec<Vec<u32>>, alloc: &Vec<Vec<u32>>, work: Vec<u64>) -> (fit: bool)
    requires
        settle_ready(need@, alloc@, work@),
    ensures
        fit == counts_fit(int_matrix(need@), int_matrix(alloc@), wide_row(work@), u32::MAX as int),
{
    let ghost need_m = int_matrix(need@);
    let ghost alloc_m = int_matrix(alloc@);
    let ghost work0 = wide_row(work@);
    let ghost work_v = work@;
    let nr = work.len();
    let (finished, free) = settle(need, alloc, work);
    let mut fit = true;
    let mut r: usize = 0;
    while r < nr
        invariant
            free.len() == nr,
            r <= nr,
            fit <==> forall|q: int| 0 <= q < r ==> #[trigger] free@[q] <= u32::MAX,
        decreases nr - r,
    {
        if free[r] > u32::MAX as u64 {
            fit = false;
        }
        r = r + 1;
    }
    proof {
        lemma_settle_ready_shaped(need@, alloc@, work_v);
        if fit {
            assert forall|order: Seq<int>| #[trigger] is_runnable(need_m, alloc_m, work0, order) implies forall|q: int|
                0 <= q < work0.len() ==> #[trigger] available(
                    alloc_m,
                    work0,
                    done_before(order, order.len() as int, need_m.len() as int),
                    q,
                ) <= u32::MAX by {
                assert forall|q: int| 0 <= q < work0.len() implies #[trigger] available(
                    alloc_m,
                    work0,
                    done_before(order, order.len() as int, need_m.len() as int),
                    q,
                ) <= u32::MAX by {
                    lemma_runnable_frees_less(need_m, alloc_m, work0, finished@, order, q);
                    assert(free@[q] <= u32::MAX);
                }
            }
        } else {
            let q = choose|q: int| 0 <= q < nr && !(#[trigger] free@[q] <= u32::MAX);
            let order = choose|order: Seq<int>|
                is_runnable(need_m, alloc_m, work0, order) && done_before(
                    order,
                    order.len() as int,
                    need_m.len() as int,
                ) == finished@;
            assert(available(
                alloc_m,
                work0,
                done_before(order, order.len() as int, need_m.len() as int),
                q,
            ) > u32::MAX);
        }
    }
    fit
}

proof fn lemma_held_by_zero(alloc: Seq<Seq<int>>, fin: Seq<bool>, r: int, k: int)
    requires
        0 <= k <= fin.len(),
        forall|t: int| 0 <= t < k ==> !#[trigger] fin[t],
    ensures
        held_by(alloc, fin, r, k) == 0,
    decreases k,
{
    if k > 0 {
        lemma_held_by_zero(alloc, fin, r, k - 1);
    }
}

pub(crate) proof fn lemma_held_by_nonneg(alloc: Seq<Seq<int>>, fin: Seq<bool>, r: int, k: int)
    requires
        0 <= k <= fin.len(),
        forall|t: int| 0 <= t < k ==> 0 <= #[trigger] alloc[t][r],
    ensures
        0 <= held_by(alloc, fin, r, k),
    decreases k,
{
    if k > 0 {
        lemma_held_by_nonneg(alloc, fin, r, k - 1);
        assert(0 <= alloc[k - 1][r]);
    }
}

/// When what every task waits for is free already, the tasks can finish one
/// after the other in their own order: such a state is never reported as a
/// deadlock.
pub proof fn law_needs_that_fit_are_safe(need: Seq<Seq<int>>, alloc: Seq<Seq<int>>, work: Seq<int>)
    requires
        well_shaped(need, alloc, work),
        forall|t: int, r: int| 0 <= t < need.len() && 0 <= r < work.len() ==> #[trigger] need[t][r] <= work[r],
    ensures
        is_safe(need, alloc, work),
{
    let n = need.len() as int;
    let order = Seq::new(n as nat, |i: int| i);
    assert forall|i: int| 0 <= i < order.len() implies can_finish(
        need,
        alloc,
        work,
        #[trigger] done_before(order, i, n),
        order[i],
    ) by {
        assert forall|r: int| 0 <= r < work.len() implies #[trigger] need[order[i]][r] <= available(
            alloc,
            work,
            done_before(order, i, n),
            r,
        ) by {
            assert forall|t: int| 0 <= t < n implies 0 <= #[trigger] alloc[t][r] by {
                assert(need[t].len() == work.len());
            }
            lemma_held_by_nonneg(alloc, done_before(order, i, n), r, n);
        }
    }
    assert forall|t: int| 0 <= t < n implies #[trigger] order.contains(t) by {
        assert(order[t] == t);
    }
    assert(is_safe_order(need, alloc, work, order));
}

/// When the free units plus everything the tasks hold fit in `bound`, the
/// units free after any run of the tasks fit in `bound`.
pub(crate) proof fn lemma_total_bound_fits(
    need: Seq<Seq<int>>,
    alloc: Seq<Seq<int>>,
    work: Seq<int>,
    bound: int,
)
    requires
        well_shaped(need, alloc, work),
        forall|r: int|
            0 <= r < work.len() ==> #[trigger] work[r] + held_by(
                alloc,
                all_marked(need.len() as int),
                r,
                need.len() as int,
            ) <= bound,
    ensures
        counts_fit(need, alloc, work, bound),
{
    let n = need.len() as int;
    assert forall|order: Seq<int>| #[trigger] is_runnable(need, alloc, work, order) implies forall|r: int|
        0 <= r < work.len() ==> #[trigger] available(
            alloc,
            work,
            done_before(order, order.len() as int, n),
            r,
        ) <= bound by {
        assert forall|r: int| 0 <= r < work.len() implies #[trigger] available(
            alloc,
            work,
            done_before(order, order.len() as int, n),
            r,
        ) <= bound by {
            assert forall|t: int| 0 <= t < n implies 0 <= #[trigger] alloc[t][r] by {
                assert(need[t].len() == work.len());
            }
            lemma_held_by_monotone(alloc, done_before(order, order.len() as int, n), all_marked(n), r, n);
        }
    }
}

/// More free units never turn a safe state into an unsafe one: an order that
/// lets every task finish still does when more units are free.
pub proof fn law_more_free_units_stay_safe(
    need: Seq<Seq<int>>,
    alloc: Seq<Seq<int>>,
    fewer: Seq<int>,
    more: Seq<int>,
)
    requires
        fewer.len() == more.len(),
        forall|r: int| 0 <= r < fewer.len() ==> #[trigger] fewer[r] <= more[r],
        is_safe(need, alloc, fewer),
    ensures
        is_safe(need, alloc, more),
{
    let order = choose|order: Seq<int>| is_safe_order(need, alloc, fewer, order);
    let n = need.len() as int;
    assert forall|i: int| 0 <= i < order.len() implies can_finish(
        need,
        alloc,
        more,
        #[trigger] done_before(order, i, n),
        order[i],
    ) by {
        assert(can_finish(need, alloc, fewer, done_before(order, i, n), order[i]));
        assert forall|r: int| 0 <= r < more.len() implies #[trigger] need[order[i]][r] <= available(
            alloc,
            more,
            done_before(order, i, n),
            r,
        ) by {
            assert(need[order[i]][r] <= available(alloc, fewer, done_before(order, i, n), r));
        }
    }
    assert(is_safe_order(need, alloc, more, order));
}

/// A marked task's holding of a resource counts towards what the marked
/// tasks hold.
pub(crate) proof fn lemma_held_by_includes(alloc: Seq<Seq<int>>, fin: Seq<bool>, t: int, r: int, k: int)
    requires
        0 <= t < k <= fin.len(),
        fin[t],
        forall|u: int| 0 <= u < k ==> 0 <= #[trigger] alloc[u][r],
    ensures
        alloc[t][r] <= held_by(alloc, fin, r, k),
    decreases k,
{
    lemma_held_by_nonneg(alloc, fin, r, k - 1);
    if t < k - 1 {
        lemma_held_by_includes(alloc, fin, t, r, k - 1);
    }
}

/// Marked tasks that hold nothing of a resource hold nothing of it together.
pub(crate) proof fn lemma_held_by_none(alloc: Seq<Seq<int>>, fin: Seq<bool>, r: int, k: int)
    requires
        0 <= k <= fin.len(),
        forall|u: int| 0 <= u < k && #[trigger] fin[u] ==> alloc[u][r] == 0,
    ensures
        held_by(alloc, fin, r, k) == 0,
    decreases k,
{
    if k > 0 {
        lemma_held_by_none(alloc, fin, r, k - 1);
    }
}

} // verus!
