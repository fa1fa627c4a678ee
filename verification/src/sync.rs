//! The synchronisation system calls of one process: creating mutexes,
//! semaphores and condition variables, and the bookkeeping of what each task
//! holds and waits for, with the optional deadlock check run before a task
//! may block on a mutex or a semaphore.
//!
//! A resource is named by a pair `(flag, id)`: `flag` is false for mutex `id`
//! and true for semaphore `id`. In the deadlock check mutex `id` is resource
//! number `id` and semaphore `id` is resource number `id + number of mutexes`.
//!
//! The blocking itself (locking, waking, sleeping) is left to the caller: each
//! call answers with the value the system call returns and the action to
//! perform on the primitive.
use vstd::prelude::*;
use crate::banker::{
    all_marked, counts_fit, counts_fit_u32, find_unsafe, held_by, int_matrix, int_row, is_safe,
    lemma_held_by_nonneg, lemma_settle_ready_shaped, lemma_total_bound_fits, wide_row,
};
use crate::slots::{alloc_slot, lowest_free, placed};

verus! {

/// The value a lock or down request returns when granting it could deadlock.
pub const DEADLOCK_DETECTED: isize = -0xDEAD;

/// What one task holds and the resource it last asked for.
pub struct TaskResources {
    pub allocation: Vec<(bool, usize)>,
    pub need: Option<(bool, usize)>,
}

/// A mutex of the process: spinning or blocking, and whether it is held now.
#[derive(Clone, Copy, Debug, PartialEq, Eq, Structural)]
pub struct MutexInfo {
    pub blocking: bool,
    pub locked: bool,
}

/// A semaphore of the process, by its current count.
#[derive(Clone, Copy, Debug, PartialEq, Eq, Structural)]
pub struct SemaphoreInfo {
    pub count: isize,
}

/// A condition variable of the process.
#[derive(Clone, Copy, Debug, PartialEq, Eq, Structural)]
pub struct CondvarInfo {}

/// The synchronisation state of one process. `tasks` is indexed by thread id.
pub struct ProcessSync {
    pub tasks: Vec<Option<TaskResources>>,
    pub mutex_list: Vec<Option<MutexInfo>>,
    pub semaphore_list: Vec<Option<SemaphoreInfo>>,
    pub condvar_list: Vec<Option<CondvarInfo>>,
    pub deaddetection: bool,
}

/// What the caller does on the primitives once the system call has decided.
#[derive(Clone, Copy, Debug, PartialEq, Eq, Structural)]
pub enum SyncAction {
    Nothing,
    SleepUntil { expire_ms: usize },
    Lock { mutex_id: usize },
    Unlock { mutex_id: usize },
    Up { sem_id: usize },
    Down { sem_id: usize },
    Signal { condvar_id: usize },
    Wait { condvar_id: usize, mutex_id: usize },
}

/// The value returned to the task and the action to perform.
#[derive(Clone, Copy, Debug, PartialEq, Eq, Structural)]
pub struct SyncOutcome {
    pub ret: isize,
    pub action: SyncAction,
}

/// The resource number of mutex `id` (flag false) or semaphore `id` (flag true).
pub open spec fn resource_index(flag: bool, id: int, mutex_count: int) -> int {
    if flag {
        id + mutex_count
    } else {
        id
    }
}

/// How many of `entries` name resource number `r`.
pub open spec fn count_held(entries: Seq<(bool, usize)>, mutex_count: int, r: int) -> int
    decreases entries.len(),
{
    if entries.len() == 0 {
        0
    } else {
        count_held(entries.drop_last(), mutex_count, r) + if resource_index(
            entries.last().0,
            entries.last().1 as int,
            mutex_count,
        ) == r {
            1int
        } else {
            0int
        }
    }
}

/// Units of resource `r` that a task holds.
pub open spec fn held_units(task: Option<TaskResources>, mutex_count: int, r: int) -> int {
    match task {
        Some(task) => count_held(task.allocation@, mutex_count, r),
        None => 0,
    }
}

/// Units of resource `r` that a task has recorded as its need.
pub open spec fn wanted_units(task: Option<TaskResources>, mutex_count: int, r: int) -> int {
    match task {
        Some(task) => match task.need {
            Some(e) => if resource_index(e.0, e.1 as int, mutex_count) == r {
                1
            } else {
                0
            },
            None => 0,
        },
        None => 0,
    }
}

/// Units of each resource held by each task.
pub open spec fn allocation_matrix(
    tasks: Seq<Option<TaskResources>>,
    mutex_count: int,
    resources: int,
) -> Seq<Seq<int>> {
    Seq::new(
        tasks.len(),
        |t: int| Seq::new(resources as nat, |r: int| held_units(tasks[t], mutex_count, r)),
    )
}

/// Units of each resource each task waits for: its recorded need, plus, for
/// the requesting task, the resource it asks for now.
pub open spec fn need_matrix(
    tasks: Seq<Option<TaskResources>>,
    mutex_count: int,
    resources: int,
    current: int,
    request: int,
) -> Seq<Seq<int>> {
    Seq::new(
        tasks.len(),
        |t: int|
            Seq::new(
                resources as nat,
                |r: int|
                    wanted_units(tasks[t], mutex_count, r) + if t == current && r == request {
                        1int
                    } else {
                        0int
                    },
            ),
    )
}

/// Units free now: one for each unlocked mutex, and the count of each
/// semaphore whose count is positive (taken as a `u32`).
pub open spec fn free_units(mutexes: Seq<Option<MutexInfo>>, semaphores: Seq<Option<SemaphoreInfo>>) -> Seq<
    int,
> {
    Seq::new(
        mutexes.len() + semaphores.len(),
        |r: int|
            if r < mutexes.len() {
                match mutexes[r] {
                    Some(mi) => if !mi.locked {
                        1int
                    } else {
                        0int
                    },
                    None => 0int,
                }
            } else {
                match semaphores[r - mutexes.len()] {
                    Some(si) => if si.count > 0 {
                        (si.count as u32) as int
                    } else {
                        0int
                    },
                    None => 0int,
                }
            },
    )
}

/// Granting `current` the resource `(use_mutex, index)` leaves no order in
/// which every task can finish.
pub open spec fn deadlocked(
    tasks: Seq<Option<TaskResources>>,
    mutexes: Seq<Option<MutexInfo>>,
    semaphores: Seq<Option<SemaphoreInfo>>,
    current: int,
    use_mutex: bool,
    index: int,
) -> bool {
    let m = mutexes.len() as int;
    let nr = m + semaphores.len();
    !is_safe(
        need_matrix(tasks, m, nr, current, resource_index(use_mutex, index, m)),
        allocation_matrix(tasks, m, nr),
        free_units(mutexes, semaphores),
    )
}

/// Every resource that a task holds or waits for has a number below
/// `resources`.
pub open spec fn entries_in_range(tasks: Seq<Option<TaskResources>>, mutex_count: int, resources: int) -> bool {
    forall|t: int|
        #![trigger tasks[t]]
        0 <= t < tasks.len() ==> match tasks[t] {
            Some(task) => {
                &&& forall|i: int|
                    0 <= i < task.allocation@.len() ==> resource_index(
                        #[trigger] task.allocation@[i].0,
                        task.allocation@[i].1 as int,
                        mutex_count,
                    ) < resources
                &&& task.need matches Some(e) ==> resource_index(e.0, e.1 as int, mutex_count) < resources
            },
            None => true,
        }
}

/// The deadlock check finds every resource it looks up: the numbers of the
/// request and of what each task holds or waits for are in range, the
/// requesting task exists, and no task holds more of one resource than a `u32`
/// counts.
pub open spec fn check_indices(
    tasks: Seq<Option<TaskResources>>,
    mutexes: Seq<Option<MutexInfo>>,
    semaphores: Seq<Option<SemaphoreInfo>>,
    current: int,
    use_mutex: bool,
    index: int,
) -> bool {
    let m = mutexes.len() as int;
    let nr = m + semaphores.len();
    &&& nr <= usize::MAX
    &&& 0 <= current < tasks.len()
    &&& 0 <= index
    &&& resource_index(use_mutex, index, m) < nr
    &&& entries_in_range(tasks, m, nr)
    &&& forall|t: int, r: int|
        0 <= t < tasks.len() && 0 <= r < nr ==> #[trigger] held_units(tasks[t], m, r) <= u32::MAX
}

/// Whatever tasks finish one after another, the units of each resource free
/// then stay within `bound`.
pub open spec fn free_units_fit(
    tasks: Seq<Option<TaskResources>>,
    mutexes: Seq<Option<MutexInfo>>,
    semaphores: Seq<Option<SemaphoreInfo>>,
    current: int,
    use_mutex: bool,
    index: int,
    bound: int,
) -> bool {
    let m = mutexes.len() as int;
    let nr = m + semaphores.len();
    counts_fit(
        need_matrix(tasks, m, nr, current, resource_index(use_mutex, index, m)),
        allocation_matrix(tasks, m, nr),
        free_units(mutexes, semaphores),
        bound,
    )
}

/// What the deadlock check needs to run without an index out of range or a
/// counter overflow: the lookups succeed, and the `u32` counters of free
/// units never overflow while tasks give back what they hold.
pub open spec fn check_runs(
    tasks: Seq<Option<TaskResources>>,
    mutexes: Seq<Option<MutexInfo>>,
    semaphores: Seq<Option<SemaphoreInfo>>,
    current: int,
    use_mutex: bool,
    index: int,
) -> bool {
    &&& check_indices(tasks, mutexes, semaphores, current, use_mutex, index)
    &&& free_units_fit(tasks, mutexes, semaphores, current, use_mutex, index, u32::MAX as int)
}

proof fn lemma_count_held_prefix(entries: Seq<(bool, usize)>, m: int, r: int, i: int)
    requires
        0 <= i <= entries.len(),
    ensures
        0 <= count_held(entries.subrange(0, i), m, r) <= count_held(entries, m, r),
    decreases entries.len(),
{
    if i == entries.len() {
        assert(entries.subrange(0, i) =~= entries);
        lemma_count_held_nonneg(entries, m, r);
    } else {
        lemma_count_held_prefix(entries.drop_last(), m, r, i);
        assert(entries.drop_last().subrange(0, i) =~= entries.subrange(0, i));
    }
}

proof fn lemma_count_held_nonneg(entries: Seq<(bool, usize)>, m: int, r: int)
    ensures
        0 <= count_held(entries, m, r),
    decreases entries.len(),
{
    if entries.len() > 0 {
        lemma_count_held_nonneg(entries.drop_last(), m, r);
    }
}

fn zero_row(len: usize) -> (row: Vec<u32>)
    ensures
        row.len() == len,
        forall|r: int| 0 <= r < len ==> #[trigger] row@[r] == 0,
{
    let mut row: Vec<u32> = Vec::new();
    while row.len() < len
        invariant
            row.len() <= len,
            forall|r: int| 0 <= r < row.len() ==> #[trigger] row@[r] == 0,
        decreases len - row.len(),
    {
        row.push(0);
    }
    row
}

/// Counts, for each resource number, how many entries name it.
fn held_row(entries: &Vec<(bool, usize)>, mutex_count: usize, resources: usize) -> (row: Vec<u32>)
    requires
        forall|i: int|
            0 <= i < entries.len() ==> 0 <= resource_index(
                #[trigger] entries@[i].0,
                entries@[i].1 as int,
                mutex_count as int,
            ) < resources,
        forall|r: int| 0 <= r < resources ==> #[trigger] count_held(entries@, mutex_count as int, r) <= u32::MAX,
    ensures
        row.len() == resources,
        forall|r: int| 0 <= r < resources ==> #[trigger] row@[r] == count_held(entries@, mutex_count as int, r),
{
    let mut row = zero_row(resources);
    let mut i: usize = 0;
    proof {
        assert forall|r: int| 0 <= r < resources implies #[trigger] row@[r] == count_held(
            entries@.subrange(0, 0),
            mutex_count as int,
            r,
        ) by {
            assert(entries@.subrange(0, 0).len() == 0);
        }
    }
    while i < entries.len()
        invariant
            i <= entries.len(),
            row.len() == resources,
            forall|i: int|
                0 <= i < entries.len() ==> 0 <= resource_index(
                    #[trigger] entries@[i].0,
                    entries@[i].1 as int,
                    mutex_count as int,
                ) < resources,
            forall|r: int| 0 <= r < resources ==> #[trigger] count_held(entries@, mutex_count as int, r) <= u32::MAX,
            forall|r: int|
                0 <= r < resources ==> #[trigger] row@[r] == count_held(
                    entries@.subrange(0, i as int),
                    mutex_count as int,
                    r,
                ),
        decreases entries.len() - i,
    {
        let (flag, id) = entries[i];
        let rid = if flag {
            id + mutex_count
        } else {
            id
        };
        let ghost before = row@;
        proof {
            assert(entries@.subrange(0, i as int + 1).drop_last() =~= entries@.subrange(0, i as int));
            lemma_count_held_prefix(entries@, mutex_count as int, rid as int, i as int + 1);
        }
        let cur = row[rid];
        row.set(rid, cur + 1);
        proof {
            assert forall|r: int| 0 <= r < resources implies #[trigger] row@[r] == count_held(
                entries@.subrange(0, i as int + 1),
                mutex_count as int,
                r,
            ) by {
                assert(entries@.subrange(0, i as int + 1).last() == entries@[i as int]);
            }
        }
        i = i + 1;
    }
    assert(entries@.subrange(0, entries.len() as int) =~= entries@);
    row
}

/// The allocation row of one task: how many units of each resource it holds.
fn allocation_row(task: &Option<TaskResources>, mutex_count: usize, resources: usize) -> (row: Vec<u32>)
    requires
        task matches Some(t) ==> forall|i: int|
            0 <= i < t.allocation@.len() ==> 0 <= resource_index(
                #[trigger] t.allocation@[i].0,
                t.allocation@[i].1 as int,
                mutex_count as int,
            ) < resources,
        forall|r: int| 0 <= r < resources ==> #[trigger] held_units(*task, mutex_count as int, r) <= u32::MAX,
    ensures
        int_row(row@) == Seq::new(resources as nat, |r: int| held_units(*task, mutex_count as int, r)),
{
    let row = match task {
        Some(t) => {
            assert forall|r: int| 0 <= r < resources implies #[trigger] count_held(t.allocation@, mutex_count as int, r)
                <= u32::MAX by {
                assert(held_units(*task, mutex_count as int, r) <= u32::MAX);
            }
            held_row(&t.allocation, mutex_count, resources)
        },
        None => zero_row(resources),
    };
    assert(int_row(row@) =~= Seq::new(resources as nat, |r: int| held_units(*task, mutex_count as int, r)));
    row
}

/// The need row of one task: its recorded need, plus one unit of `request`
/// when it is the requesting task.
fn need_row(
    task: &Option<TaskResources>,
    mutex_count: usize,
    resources: usize,
    is_current: bool,
    request: usize,
) -> (row: Vec<u32>)
    requires
        task matches Some(t) ==> (t.need matches Some(e) ==> 0 <= resource_index(e.0, e.1 as int, mutex_count as int) < resources),
        request < resources,
    ensures
        int_row(row@) == Seq::new(
            resources as nat,
            |r: int|
                wanted_units(*task, mutex_count as int, r) + if is_current && r == request {
                    1int
                } else {
                    0int
                },
        ),
{
    let mut row = zero_row(resources);
    match task {
        Some(t) => match t.need {
            Some(e) => {
                let rid = if e.0 {
                    e.1 + mutex_count
                } else {
                    e.1
                };
                row.set(rid, 1);
            },
            None => {},
        },
        None => {},
    }
    if is_current {
        let cur = row[request];
        row.set(request, cur + 1);
    }
    assert(int_row(row@) =~= Seq::new(
        resources as nat,
        |r: int|
            wanted_units(*task, mutex_count as int, r) + if is_current && r == request {
                1int
            } else {
                0int
            },
    ));
    row
}

/// The need matrix, allocation matrix and free units the deadlock check runs
/// on, for task `current` asking for resource `(use_mutex, index)`.
fn deadlock_matrices(
    tasks: &Vec<Option<TaskResources>>,
    mutexes: &Vec<Option<MutexInfo>>,
    semaphores: &Vec<Option<SemaphoreInfo>>,
    current: usize,
    use_mutex: bool,
    index: usize,
) -> (res: (Vec<Vec<u32>>, Vec<Vec<u32>>, Vec<u64>))
    requires
        check_indices(tasks@, mutexes@, semaphores@, current as int, use_mutex, index as int),
    ensures
        ({
            let (need, allocation, work) = res;
            let m = mutexes.len() as int;
            let nr = m + semaphores.len();
            &&& need.len() == tasks.len()
            &&& allocation.len() == tasks.len()
            &&& work.len() == nr
            &&& forall|t: int|
                0 <= t < tasks.len() ==> (#[trigger] need@[t]).len() == nr && allocation@[t].len()
                    == nr
            &&& int_matrix(need@) == need_matrix(
                tasks@,
                m,
                nr,
                current as int,
                resource_index(use_mutex, index as int, m),
            )
            &&& int_matrix(allocation@) == allocation_matrix(tasks@, m, nr)
            &&& wide_row(work@) == free_units(mutexes@, semaphores@)
        }),
{
    let m = mutexes.len();
    let nr = m + semaphores.len();
    let n = tasks.len();
    let ghost alloc_spec = allocation_matrix(tasks@, m as int, nr as int);
    let request = if use_mutex {
        index + m
    } else {
        index
    };
    let ghost need_spec = need_matrix(tasks@, m as int, nr as int, current as int, request as int);
    let ghost free_spec = free_units(mutexes@, semaphores@);
    let mut allocation: Vec<Vec<u32>> = Vec::new();
    let mut need: Vec<Vec<u32>> = Vec::new();
    let mut t: usize = 0;
    while t < n
        invariant
            n == tasks.len(),
            nr == m + semaphores.len(),
            m == mutexes.len(),
            t <= n,
            request == resource_index(use_mutex, index as int, m as int),
            check_indices(tasks@, mutexes@, semaphores@, current as int, use_mutex, index as int),
            alloc_spec == allocation_matrix(tasks@, m as int, nr as int),
            need_spec == need_matrix(tasks@, m as int, nr as int, current as int, request as int),
            allocation.len() == t,
            need.len() == t,
            forall|u: int| 0 <= u < t ==> int_row((#[trigger] allocation@[u])@) == alloc_spec[u],
            forall|u: int| 0 <= u < t ==> int_row((#[trigger] need@[u])@) == need_spec[u],
        decreases n - t,
    {
        let arow = allocation_row(&tasks[t], m, nr);
        let nrow = need_row(&tasks[t], m, nr, t == current, request);
        let ghost alloc_before = allocation@;
        let ghost need_before = need@;
        allocation.push(arow);
        need.push(nrow);
        proof {
            assert forall|u: int| 0 <= u < t + 1 implies int_row((#[trigger] allocation@[u])@) == alloc_spec[u] by {
                if u < t {
                    assert(allocation@[u] == alloc_before[u]);
                }
            }
            assert forall|u: int| 0 <= u < t + 1 implies int_row((#[trigger] need@[u])@) == need_spec[u] by {
                if u < t {
                    assert(need@[u] == need_before[u]);
                }
            }
        }
        t = t + 1;
    }
    let mut work: Vec<u64> = Vec::new();
    let mut r: usize = 0;
    while r < m
        invariant
            r <= m,
            m == mutexes.len(),
            work.len() == r,
            free_spec == free_units(mutexes@, semaphores@),
            forall|q: int| 0 <= q < r ==> #[trigger] work@[q] == free_spec[q],
        decreases m - r,
    {
        let unit: u64 = match &mutexes[r] {
            Some(mi) => if !mi.locked {
                1
            } else {
                0
            },
            None => 0,
        };
        work.push(unit);
        r = r + 1;
    }
    let mut q: usize = 0;
    while q < semaphores.len()
        invariant
            q <= semaphores.len(),
            m == mutexes.len(),
            nr == m + semaphores.len(),
            work.len() == m + q,
            free_spec == free_units(mutexes@, semaphores@),
            forall|x: int| 0 <= x < m + q ==> #[trigger] work@[x] == free_spec[x],
        decreases semaphores.len() - q,
    {
        let units: u64 = match &semaphores[q] {
            Some(si) => if si.count > 0 {
                #[verifier::truncate]
                (si.count as u32) as u64
            } else {
                0
            },
            None => 0,
        };
        work.push(units);
        q = q + 1;
    }
    proof {
        assert(int_matrix(allocation@) =~= alloc_spec);
        assert(int_matrix(need@) =~= need_spec);
        assert(wide_row(work@) =~= free_spec);
        assert forall|u: int| 0 <= u < n implies (#[trigger] need@[u]).len() == nr
            && allocation@[u].len() == nr by {
            assert(int_row(need@[u]@).len() == need_spec[u].len());
            assert(int_row(allocation@[u]@).len() == alloc_spec[u].len());
        }
    }
    (need, allocation, work)
}

/// The deadlock check of the banker's algorithm, run before task `current`
/// blocks on resource `(use_mutex, index)`: semaphore `index` when
/// `use_mutex` is true, mutex `index` otherwise. Returns true when, with this
/// request added to what each task waits for, no order lets every task finish.
pub fn detect_deadlock(
    tasks: &Vec<Option<TaskResources>>,
    mutexes: &Vec<Option<MutexInfo>>,
    semaphores: &Vec<Option<SemaphoreInfo>>,
    current: usize,
    use_mutex: bool,
    index: usize,
) -> (deadlock: bool)
    requires
        check_runs(tasks@, mutexes@, semaphores@, current as int, use_mutex, index as int),
    ensures
        deadlock == deadlocked(tasks@, mutexes@, semaphores@, current as int, use_mutex, index as int),
{
    let (need, allocation, work) = deadlock_matrices(tasks, mutexes, semaphores, current, use_mutex, index);
    proof {
        let nm = int_matrix(need@);
        let am = int_matrix(allocation@);
        let w = wide_row(work@);
        assert forall|order: Seq<int>| #[trigger] crate::banker::is_runnable(nm, am, w, order) implies forall|r: int|
            0 <= r < w.len() ==> #[trigger] crate::banker::available(
                am,
                w,
                crate::banker::done_before(order, order.len() as int, nm.len() as int),
                r,
            ) <= u64::MAX by {
            assert(counts_fit(nm, am, w, u32::MAX as int));
        }
    }
    find_unsafe(&need, &allocation, work)
}

/// Whether the deadlock check can run without its `u32` counters of free units
/// overflowing, for task `current` asking for resource `(use_mutex, index)`.
/// Asks that the free and held units of each resource together fit in a
/// `u64`, as they do for any table that fits in memory.
pub fn deadlock_check_fits(
    tasks: &Vec<Option<TaskResources>>,
    mutexes: &Vec<Option<MutexInfo>>,
    semaphores: &Vec<Option<SemaphoreInfo>>,
    current: usize,
    use_mutex: bool,
    index: usize,
) -> (fit: bool)
    requires
        check_indices(tasks@, mutexes@, semaphores@, current as int, use_mutex, index as int),
        forall|r: int|
            0 <= r < mutexes.len() + semaphores.len() ==> #[trigger] free_units(mutexes@, semaphores@)[r]
                + held_by(
                allocation_matrix(tasks@, mutexes.len() as int, mutexes.len() + semaphores.len()),
                all_marked(tasks.len() as int),
                r,
                tasks.len() as int,
            ) <= u64::MAX,
    ensures
        fit == free_units_fit(
            tasks@,
            mutexes@,
            semaphores@,
            current as int,
            use_mutex,
            index as int,
            u32::MAX as int,
        ),
{
    let (need, allocation, work) = deadlock_matrices(tasks, mutexes, semaphores, current, use_mutex, index);
    proof {
        let nm = int_matrix(need@);
        let am = int_matrix(allocation@);
        let w = wide_row(work@);
        assert forall|t: int, r: int| 0 <= t < am.len() && 0 <= r < w.len() implies 0 <= #[trigger] am[t][r] by {
            match tasks@[t] {
                Some(task) => lemma_count_held_nonneg(task.allocation@, mutexes.len() as int, r),
                None => {},
            }
        }
        lemma_settle_ready_shaped(need@, allocation@, work@);
        lemma_total_bound_fits(nm, am, w, u64::MAX as int);
    }
    counts_fit_u32(&need, &allocation, work)
}

/// A request is never reported as a deadlock when what every task waits for,
/// this request included, is free already.
pub proof fn law_grantable_request_is_not_refused(
    tasks: Seq<Option<TaskResources>>,
    mutexes: Seq<Option<MutexInfo>>,
    semaphores: Seq<Option<SemaphoreInfo>>,
    current: int,
    use_mutex: bool,
    index: int,
)
    requires
        forall|t: int, r: int|
            0 <= t < tasks.len() && 0 <= r < mutexes.len() + semaphores.len() ==> #[trigger] need_matrix(
                tasks,
                mutexes.len() as int,
                (mutexes.len() + semaphores.len()) as int,
                current,
                resource_index(use_mutex, index, mutexes.len() as int),
            )[t][r] <= free_units(mutexes, semaphores)[r],
    ensures
        !deadlocked(tasks, mutexes, semaphores, current, use_mutex, index),
{
    let m = mutexes.len() as int;
    let nr = m + semaphores.len();
    let need = need_matrix(tasks, m, nr, current, resource_index(use_mutex, index, m));
    let alloc = allocation_matrix(tasks, m, nr);
    let work = free_units(mutexes, semaphores);
    assert forall|t: int, r: int| 0 <= t < alloc.len() && 0 <= r < work.len() implies 0
        <= #[trigger] alloc[t][r] by {
        match tasks[t] {
            Some(task) => lemma_count_held_nonneg(task.allocation@, m, r),
            None => {},
        }
    }
    crate::banker::law_needs_that_fit_are_safe(need, alloc, work);
}

/// More free units never add a deadlock: when a request is not refused, it
/// is not refused either with the same tasks and tables of the same sizes in
/// which each mutex and semaphore offers at least as many free units.
pub proof fn law_more_free_units_never_add_a_deadlock(
    tasks: Seq<Option<TaskResources>>,
    mutexes: Seq<Option<MutexInfo>>,
    semaphores: Seq<Option<SemaphoreInfo>>,
    more_mutexes: Seq<Option<MutexInfo>>,
    more_semaphores: Seq<Option<SemaphoreInfo>>,
    current: int,
    use_mutex: bool,
    index: int,
)
    requires
        more_mutexes.len() == mutexes.len(),
        more_semaphores.len() == semaphores.len(),
        forall|r: int|
            0 <= r < mutexes.len() + semaphores.len() ==> #[trigger] free_units(mutexes, semaphores)[r]
                <= free_units(more_mutexes, more_semaphores)[r],
        !deadlocked(tasks, mutexes, semaphores, current, use_mutex, index),
    ensures
        !deadlocked(tasks, more_mutexes, more_semaphores, current, use_mutex, index),
{
    let m = mutexes.len() as int;
    let nr = m + semaphores.len();
    crate::banker::law_more_free_units_stay_safe(
        need_matrix(tasks, m, nr, current, resource_index(use_mutex, index, m)),
        allocation_matrix(tasks, m, nr),
        free_units(mutexes, semaphores),
        free_units(more_mutexes, more_semaphores),
    );
}

proof fn lemma_count_held_has(entries: Seq<(bool, usize)>, m: int, r: int, i: int)
    requires
        0 <= i < entries.len(),
        resource_index(entries[i].0, entries[i].1 as int, m) == r,
    ensures
        count_held(entries, m, r) >= 1,
    decreases entries.len(),
{
    if i < entries.len() - 1 {
        lemma_count_held_has(entries.drop_last(), m, r, i);
        lemma_count_held_nonneg(entries.drop_last(), m, r);
    } else {
        lemma_count_held_nonneg(entries.drop_last(), m, r);
    }
}

proof fn lemma_count_held_absent(entries: Seq<(bool, usize)>, m: int, r: int)
    requires
        forall|i: int|
            0 <= i < entries.len() ==> resource_index(#[trigger] entries[i].0, entries[i].1 as int, m) != r,
    ensures
        count_held(entries, m, r) == 0,
    decreases entries.len(),
{
    if entries.len() > 0 {
        assert forall|i: int| 0 <= i < entries.drop_last().len() implies resource_index(
            #[trigger] entries.drop_last()[i].0,
            entries.drop_last()[i].1 as int,
            m,
        ) != r by {
            assert(entries.drop_last()[i] == entries[i]);
        }
        lemma_count_held_absent(entries.drop_last(), m, r);
        assert(entries.last() == entries[entries.len() - 1]);
    }
}

proof fn lemma_shapes(
    tasks: Seq<Option<TaskResources>>,
    mutexes: Seq<Option<MutexInfo>>,
    semaphores: Seq<Option<SemaphoreInfo>>,
    current: int,
    request: int,
)
    ensures
        crate::banker::well_shaped(
            need_matrix(tasks, mutexes.len() as int, (mutexes.len() + semaphores.len()) as int, current, request),
            allocation_matrix(tasks, mutexes.len() as int, (mutexes.len() + semaphores.len()) as int),
            free_units(mutexes, semaphores),
        ),
        forall|r: int|
            0 <= r < mutexes.len() + semaphores.len() ==> 0 <= #[trigger] free_units(mutexes, semaphores)[r],
{
    let m = mutexes.len() as int;
    let nr = m + semaphores.len();
    let alloc = allocation_matrix(tasks, m, nr);
    assert forall|t: int, r: int| 0 <= t < alloc.len() && 0 <= r < nr implies 0 <= #[trigger] alloc[t][r] by {
        match tasks[t] {
            Some(task) => lemma_count_held_nonneg(task.allocation@, m, r),
            None => {},
        }
    }
}

/// When no task waits for anything yet, a request is granted whenever a unit
/// of the requested resource is within reach: a mutex that is present and not
/// locked, spinning or blocking alike; a semaphore with a positive count that
/// a `u32` holds; or a unit held by another task, which that task gives back
/// when it finishes.
pub proof fn law_request_within_reach_is_granted(
    tasks: Seq<Option<TaskResources>>,
    mutexes: Seq<Option<MutexInfo>>,
    semaphores: Seq<Option<SemaphoreInfo>>,
    current: int,
    use_mutex: bool,
    index: int,
)
    requires
        0 <= current < tasks.len(),
        0 <= index <= usize::MAX,
        forall|t: int| 0 <= t < tasks.len() && (#[trigger] tasks[t]) is Some ==> tasks[t]->0.need is None,
        ({
            ||| !use_mutex && index < mutexes.len() && mutexes[index] is Some && !mutexes[index]->0.locked
            ||| use_mutex && index < semaphores.len() && semaphores[index] is Some && 0
                < semaphores[index]->0.count <= u32::MAX
            ||| exists|u: int, i: int|
                0 <= u < tasks.len() && u != current && tasks[u] is Some && 0 <= i
                    < tasks[u]->0.allocation@.len() && #[trigger] tasks[u]->0.allocation@[i] == (use_mutex, index as usize)
        }),
    ensures
        !deadlocked(tasks, mutexes, semaphores, current, use_mutex, index),
{
    let m = mutexes.len() as int;
    let nr = m + semaphores.len();
    let n = tasks.len() as int;
    let req = resource_index(use_mutex, index, m);
    let need = need_matrix(tasks, m, nr, current, req);
    let alloc = allocation_matrix(tasks, m, nr);
    let work = free_units(mutexes, semaphores);
    lemma_shapes(tasks, mutexes, semaphores, current, req);
    assert forall|t: int, r: int| 0 <= t < n && 0 <= r < nr implies #[trigger] need[t][r] == if t == current
        && r == req {
        1int
    } else {
        0int
    } by {
        assert(tasks[t] is Some ==> tasks[t]->0.need is None);
    }
    if (!use_mutex && index < mutexes.len() && mutexes[index] is Some && !mutexes[index]->0.locked) || (
    use_mutex && index < semaphores.len() && semaphores[index] is Some && 0 < semaphores[index]->0.count
        <= u32::MAX) {
        assert(work[req] >= 1);
        assert forall|t: int, r: int| 0 <= t < need.len() && 0 <= r < work.len() implies #[trigger] need[t][r]
            <= work[r] by {
            assert(need[t][r] == if t == current && r == req {
                1int
            } else {
                0int
            });
        }
        crate::banker::law_needs_that_fit_are_safe(need, alloc, work);
    } else {
        let (u, i) = choose|u: int, i: int|
            0 <= u < tasks.len() && u != current && tasks[u] is Some && 0 <= i
                < tasks[u]->0.allocation@.len() && #[trigger] tasks[u]->0.allocation@[i] == (use_mutex, index as usize);
        // The other tasks first, in their own order, then the requesting task.
        let order = Seq::new(
            n as nat,
            |k: int|
                if k < current {
                    k
                } else if k < n - 1 {
                    k + 1
                } else {
                    current
                },
        );
        assert forall|t: int| 0 <= t < n implies #[trigger] order.contains(t) by {
            if t < current {
                assert(order[t] == t);
            } else if t == current {
                assert(order[n - 1] == t);
            } else {
                assert(order[t - 1] == t);
            }
        }
        assert forall|k: int| 0 <= k < order.len() implies crate::banker::can_finish(
            need,
            alloc,
            work,
            #[trigger] crate::banker::done_before(order, k, n),
            order[k],
        ) by {
            let marks = crate::banker::done_before(order, k, n);
            assert forall|r: int| 0 <= r < nr implies #[trigger] need[order[k]][r] <= crate::banker::available(
                alloc,
                work,
                marks,
                r,
            ) by {
                assert forall|t: int| 0 <= t < n implies 0 <= #[trigger] alloc[t][r] by {
                    assert(need[t].len() == nr);
                }
                lemma_held_by_nonneg(alloc, marks, r, n);
                if k == n - 1 && r == req {
                    assert(order[u - 1 + if u < current { 1int } else { 0int }] == u);
                    assert(marks[u]) by {
                        let pos = if u < current {
                            u
                        } else {
                            u - 1
                        };
                        assert(order.subrange(0, k)[pos] == u);
                    }
                    let other = tasks[u]->0;
                    lemma_count_held_has(other.allocation@, m, req, i);
                    assert(alloc[u][req] >= 1);
                    crate::banker::lemma_held_by_includes(alloc, marks, u, req, n);
                }
            }
        }
        assert(crate::banker::is_safe_order(need, alloc, work, order));
    }
}

/// A request is refused whenever no unit of the requested resource can ever
/// reach the requesting task: no unit is free (the mutex is locked or absent,
/// the semaphore's count is not positive or it is absent) and no other task
/// holds one. This holds whatever the requesting task holds itself, a mutex it
/// locked already included, and whatever the tasks wait for.
pub proof fn law_request_out_of_reach_is_refused(
    tasks: Seq<Option<TaskResources>>,
    mutexes: Seq<Option<MutexInfo>>,
    semaphores: Seq<Option<SemaphoreInfo>>,
    current: int,
    use_mutex: bool,
    index: int,
)
    requires
        0 <= current < tasks.len(),
        0 <= index,
        if use_mutex {
            index < semaphores.len() && (semaphores[index] is Some ==> semaphores[index]->0.count <= 0)
        } else {
            index < mutexes.len() && (mutexes[index] is Some ==> mutexes[index]->0.locked)
        },
        forall|u: int, i: int|
            0 <= u < tasks.len() && u != current && tasks[u] is Some && 0 <= i
                < tasks[u]->0.allocation@.len() ==> resource_index(
                (#[trigger] tasks[u]->0.allocation@[i]).0,
                tasks[u]->0.allocation@[i].1 as int,
                mutexes.len() as int,
            ) != resource_index(use_mutex, index, mutexes.len() as int),
    ensures
        deadlocked(tasks, mutexes, semaphores, current, use_mutex, index),
{
    let m = mutexes.len() as int;
    let nr = m + semaphores.len();
    let n = tasks.len() as int;
    let req = resource_index(use_mutex, index, m);
    let need = need_matrix(tasks, m, nr, current, req);
    let alloc = allocation_matrix(tasks, m, nr);
    let work = free_units(mutexes, semaphores);
    lemma_shapes(tasks, mutexes, semaphores, current, req);
    assert(work[req] == 0);
    assert forall|u: int| 0 <= u < n && u != current implies #[trigger] alloc[u][req] == 0 by {
        match tasks[u] {
            Some(other) => {
                assert forall|i: int| 0 <= i < other.allocation@.len() implies resource_index(
                    #[trigger] other.allocation@[i].0,
                    other.allocation@[i].1 as int,
                    m,
                ) != req by {
                    assert(tasks[u]->0 == other);
                }
                lemma_count_held_absent(other.allocation@, m, req);
            },
            None => {},
        }
    }
    assert(need[current][req] >= 1) by {
        assert(wanted_units(tasks[current], m, req) >= 0);
    }
    assert forall|order: Seq<int>| !crate::banker::is_safe_order(need, alloc, work, order) by {
        if crate::banker::is_safe_order(need, alloc, work, order) {
            assert(order.contains(current));
            let j = choose|j: int| 0 <= j < order.len() && order[j] == current;
            let marks = crate::banker::done_before(order, j, n);
            assert forall|u: int| 0 <= u < n && #[trigger] marks[u] implies alloc[u][req] == 0 by {
                let k = choose|k: int| 0 <= k < order.subrange(0, j).len() && order.subrange(0, j)[k] == u;
                assert(order[k] == u);
                assert(u != current);
            }
            crate::banker::lemma_held_by_none(alloc, marks, req, n);
            assert(crate::banker::can_finish(need, alloc, work, marks, order[j]));
            assert(need[current][req] <= crate::banker::available(alloc, work, marks, req));
        }
    }
}

/// `i` is the first position of `e` in `s`.
pub open spec fn first_index_of(s: Seq<(bool, usize)>, e: (bool, usize), i: int) -> bool {
    &&& 0 <= i < s.len()
    &&& s[i] == e
    &&& forall|j: int| 0 <= j < i ==> #[trigger] s[j] != e
}

/// `s` with position `i` removed and the last entry moved into its place.
pub open spec fn swap_removed(s: Seq<(bool, usize)>, i: int) -> Seq<(bool, usize)> {
    s.update(i, s.last()).drop_last()
}

/// `after` is `before` with the first occurrence of `e` taken out by moving
/// the last entry into its place; `before` itself when `e` does not occur.
pub open spec fn released_from(
    before: Seq<(bool, usize)>,
    e: (bool, usize),
    after: Seq<(bool, usize)>,
) -> bool {
    if before.contains(e) {
        exists|i: int| first_index_of(before, e, i) && after == swap_removed(before, i)
    } else {
        after == before
    }
}

/// Task `current` of `after` has recorded `e` as its need; every other task,
/// and what `current` holds, are as in `before`.
pub open spec fn need_recorded(
    before: Seq<Option<TaskResources>>,
    after: Seq<Option<TaskResources>>,
    current: int,
    e: (bool, usize),
) -> bool {
    &&& after.len() == before.len()
    &&& forall|j: int| 0 <= j < before.len() && j != current ==> #[trigger] after[j] == before[j]
    &&& after[current] matches Some(task) && task.need == Some(e) && task.allocation@
        == before[current]->0.allocation@
}

/// Task `current` of `after` no longer holds one unit of `e`; every other
/// task, and what `current` waits for, are as in `before`.
pub open spec fn release_recorded(
    before: Seq<Option<TaskResources>>,
    after: Seq<Option<TaskResources>>,
    current: int,
    e: (bool, usize),
) -> bool {
    &&& after.len() == before.len()
    &&& forall|j: int| 0 <= j < before.len() && j != current ==> #[trigger] after[j] == before[j]
    &&& after[current] matches Some(task) && task.need == before[current]->0.need
        && released_from(before[current]->0.allocation@, e, task.allocation@)
}

/// The mutex, semaphore and condition variable tables and the detection flag
/// are the same in `a` and `b`.
pub open spec fn tables_unchanged(a: ProcessSync, b: ProcessSync) -> bool {
    &&& a.mutex_list@ == b.mutex_list@
    &&& a.semaphore_list@ == b.semaphore_list@
    &&& a.condvar_list@ == b.condvar_list@
    &&& a.deaddetection == b.deaddetection
}

/// The task `current` exists.
pub open spec fn has_task(p: ProcessSync, current: int) -> bool {
    0 <= current < p.tasks.len() && p.tasks@[current] is Some
}

/// Records that task `current` waits for resource `(flag, id)`.
pub fn set_need_resource(tasks: &mut Vec<Option<TaskResources>>, current: usize, flag: bool, id: usize)
    requires
        current < old(tasks).len(),
        old(tasks)@[current as int] is Some,
    ensures
        need_recorded(old(tasks)@, final(tasks)@, current as int, (flag, id)),
{
    match &mut tasks[current] {
        Some(task) => {
            task.need = Some((flag, id));
        },
        None => {},
    }
}

/// Takes one unit of resource `(flag, id)` out of what task `current` holds:
/// the first matching entry is removed and the last entry takes its place.
/// Nothing changes when the task holds none.
pub fn mark_resource_released(
    tasks: &mut Vec<Option<TaskResources>>,
    current: usize,
    flag: bool,
    id: usize,
)
    requires
        current < old(tasks).len(),
        old(tasks)@[current as int] is Some,
    ensures
        release_recorded(old(tasks)@, final(tasks)@, current as int, (flag, id)),
{
    let ghost before = tasks@[current as int]->0.allocation@;
    match &mut tasks[current] {
        Some(task) => {
            let mut pos: usize = 0;
            while pos < task.allocation.len() && !(task.allocation[pos].0 == flag
                && task.allocation[pos].1 == id)
                invariant
                    task.allocation@ == before,
                    pos <= before.len(),
                    forall|j: int| 0 <= j < pos ==> #[trigger] before[j] != (flag, id),
                decreases before.len() - pos,
            {
                pos = pos + 1;
            }
            if pos < task.allocation.len() {
                task.allocation.swap_remove(pos);
                proof {
                    assert(first_index_of(before, (flag, id), pos as int));
                    assert(before.contains((flag, id)));
                    assert(task.allocation@ == swap_removed(before, pos as int));
                    assert(released_from(before, (flag, id), task.allocation@));
                }
            } else {
                proof {
                    assert(!before.contains((flag, id)));
                    assert(released_from(before, (flag, id), task.allocation@));
                }
            }
        },
        None => {},
    }
}

/// Releasing one unit of `e` takes exactly one copy of `e` out of what the
/// task holds, whatever the order of the entries, and leaves the rest as it
/// was; when the task holds none, nothing changes.
pub proof fn law_release_takes_one_unit(
    before: Seq<(bool, usize)>,
    e: (bool, usize),
    after: Seq<(bool, usize)>,
)
    requires
        released_from(before, e, after),
    ensures
        after.to_multiset() == before.to_multiset().remove(e),
        before.contains(e) ==> after.len() + 1 == before.len(),
        !before.contains(e) ==> after == before,
{
    broadcast use vstd::seq_lib::group_to_multiset_ensures;
    broadcast use vstd::multiset::group_multiset_axioms;

    if before.contains(e) {
        let i = choose|i: int| first_index_of(before, e, i) && after == swap_removed(before, i);
        let last = before.len() - 1;
        let moved = before.update(i, before.last());
        vstd::seq_lib::to_multiset_update(before, i, before.last());
        vstd::seq_lib::to_multiset_remove(moved, last);
        assert(moved.remove(last) =~= moved.drop_last());
        assert(moved[last] == before.last());
        assert(after.to_multiset() =~= before.to_multiset().remove(e));
    } else {
        vstd::seq_lib::to_multiset_contains(before, e);
        assert(before.to_multiset().remove(e) =~= before.to_multiset());
    }
}


/// The current task sleeps `ms` milliseconds from `now_ms`: it is woken by a
/// timer at `now_ms + ms`, and the call returns 0.
pub fn sys_sleep(now_ms: usize, ms: usize) -> (out: SyncOutcome)
    requires
        now_ms + ms <= usize::MAX,
    ensures
        out == (SyncOutcome { ret: 0, action: SyncAction::SleepUntil { expire_ms: (now_ms + ms) as usize } }),
{
    SyncOutcome { ret: 0, action: SyncAction::SleepUntil { expire_ms: now_ms + ms } }
}

/// Creates a mutex, spinning or blocking, unlocked, in the lowest empty slot
/// of the mutex table (a new slot when none is empty), and returns its id.
pub fn sys_mutex_create(process: &mut ProcessSync, blocking: bool) -> (ret: isize)
    requires
        old(process).mutex_list.len() < usize::MAX,
    ensures
        exists|id: int|
            #![trigger placed(old(process).mutex_list@, id, MutexInfo { blocking, locked: false })]
            lowest_free(old(process).mutex_list@, id) && ret == id as isize
                && final(process).mutex_list@ == placed(
                old(process).mutex_list@,
                id,
                MutexInfo { blocking, locked: false },
            ),
        final(process).tasks@ == old(process).tasks@,
        final(process).semaphore_list@ == old(process).semaphore_list@,
        final(process).condvar_list@ == old(process).condvar_list@,
        final(process).deaddetection == old(process).deaddetection,
{
    let id = alloc_slot(&mut process.mutex_list, MutexInfo { blocking, locked: false });
    #[verifier::truncate]
    (id as isize)
}

/// Task `current` asks for mutex `mutex_id`. With deadlock detection on, the
/// request is refused with `DEADLOCK_DETECTED` when granting it could leave
/// the tasks deadlocked; otherwise the request is recorded as the task's need
/// and the mutex is to be locked, and the call returns 0.
pub fn sys_mutex_lock(process: &mut ProcessSync, current: usize, mutex_id: usize) -> (out: SyncOutcome)
    requires
        has_task(*old(process), current as int),
        old(process).deaddetection ==> check_runs(
            old(process).tasks@,
            old(process).mutex_list@,
            old(process).semaphore_list@,
            current as int,
            false,
            mutex_id as int,
        ),
        !(old(process).deaddetection && deadlocked(
            old(process).tasks@,
            old(process).mutex_list@,
            old(process).semaphore_list@,
            current as int,
            false,
            mutex_id as int,
        )) ==> mutex_id < old(process).mutex_list.len() && old(process).mutex_list@[mutex_id as int] is Some,
    ensures
        if old(process).deaddetection && deadlocked(
            old(process).tasks@,
            old(process).mutex_list@,
            old(process).semaphore_list@,
            current as int,
            false,
            mutex_id as int,
        ) {
            &&& out == (SyncOutcome { ret: DEADLOCK_DETECTED, action: SyncAction::Nothing })
            &&& final(process).tasks@ == old(process).tasks@
            &&& tables_unchanged(*old(process), *final(process))
        } else {
            &&& out == (SyncOutcome { ret: 0, action: SyncAction::Lock { mutex_id } })
            &&& need_recorded(old(process).tasks@, final(process).tasks@, current as int, (false, mutex_id))
            &&& tables_unchanged(*old(process), *final(process))
        },
{
    if process.deaddetection && detect_deadlock(
        &process.tasks,
        &process.mutex_list,
        &process.semaphore_list,
        current,
        false,
        mutex_id,
    ) {
        return SyncOutcome { ret: DEADLOCK_DETECTED, action: SyncAction::Nothing };
    }
    set_need_resource(&mut process.tasks, current, false, mutex_id);
    SyncOutcome { ret: 0, action: SyncAction::Lock { mutex_id } }
}

/// Task `current` releases mutex `mutex_id`: one unit of it leaves what the
/// task holds, the mutex is to be unlocked, and the call returns 0.
pub fn sys_mutex_unlock(process: &mut ProcessSync, current: usize, mutex_id: usize) -> (out: SyncOutcome)
    requires
        has_task(*old(process), current as int),
        mutex_id < old(process).mutex_list.len(),
        old(process).mutex_list@[mutex_id as int] is Some,
    ensures
        out == (SyncOutcome { ret: 0, action: SyncAction::Unlock { mutex_id } }),
        release_recorded(old(process).tasks@, final(process).tasks@, current as int, (false, mutex_id)),
        tables_unchanged(*old(process), *final(process)),
{
    mark_resource_released(&mut process.tasks, current, false, mutex_id);
    SyncOutcome { ret: 0, action: SyncAction::Unlock { mutex_id } }
}

/// Creates a semaphore with `res_count` units in the lowest empty slot of the
/// semaphore table (a new slot when none is empty), and returns its id.
pub fn sys_semaphore_create(process: &mut ProcessSync, res_count: usize) -> (ret: isize)
    requires
        old(process).semaphore_list.len() < usize::MAX,
    ensures
        exists|id: int|
            #![trigger placed(old(process).semaphore_list@, id, SemaphoreInfo { count: res_count as isize })]
            lowest_free(old(process).semaphore_list@, id) && ret == id as isize
                && final(process).semaphore_list@ == placed(
                old(process).semaphore_list@,
                id,
                SemaphoreInfo { count: res_count as isize },
            ),
        final(process).tasks@ == old(process).tasks@,
        final(process).mutex_list@ == old(process).mutex_list@,
        final(process).condvar_list@ == old(process).condvar_list@,
        final(process).deaddetection == old(process).deaddetection,
{
    let id = alloc_slot(&mut process.semaphore_list, SemaphoreInfo { count: res_count as isize });
    #[verifier::truncate]
    (id as isize)
}

/// Task `current` gives back a unit of semaphore `sem_id`: one unit of it
/// leaves what the task holds, the semaphore is to be raised, and the call
/// returns 0.
pub fn sys_semaphore_up(process: &mut ProcessSync, current: usize, sem_id: usize) -> (out: SyncOutcome)
    requires
        has_task(*old(process), current as int),
        sem_id < old(process).semaphore_list.len(),
        old(process).semaphore_list@[sem_id as int] is Some,
    ensures
        out == (SyncOutcome { ret: 0, action: SyncAction::Up { sem_id } }),
        release_recorded(old(process).tasks@, final(process).tasks@, current as int, (true, sem_id)),
        tables_unchanged(*old(process), *final(process)),
{
    mark_resource_released(&mut process.tasks, current, true, sem_id);
    SyncOutcome { ret: 0, action: SyncAction::Up { sem_id } }
}

/// Task `current` asks for a unit of semaphore `sem_id`. With deadlock
/// detection on, the request is refused with `DEADLOCK_DETECTED` when granting
/// it could leave the tasks deadlocked; otherwise the request is recorded as
/// the task's need and the semaphore is to be lowered, and the call returns 0.
pub fn sys_semaphore_down(process: &mut ProcessSync, current: usize, sem_id: usize) -> (out: SyncOutcome)
    requires
        has_task(*old(process), current as int),
        old(process).deaddetection ==> check_runs(
            old(process).tasks@,
            old(process).mutex_list@,
            old(process).semaphore_list@,
            current as int,
            true,
            sem_id as int,
        ),
        !(old(process).deaddetection && deadlocked(
            old(process).tasks@,
            old(process).mutex_list@,
            old(process).semaphore_list@,
            current as int,
            true,
            sem_id as int,
        )) ==> sem_id < old(process).semaphore_list.len() && old(process).semaphore_list@[sem_id as int] is Some,
    ensures
        if old(process).deaddetection && deadlocked(
            old(process).tasks@,
            old(process).mutex_list@,
            old(process).semaphore_list@,
            current as int,
            true,
            sem_id as int,
        ) {
            &&& out == (SyncOutcome { ret: DEADLOCK_DETECTED, action: SyncAction::Nothing })
            &&& final(process).tasks@ == old(process).tasks@
            &&& tables_unchanged(*old(process), *final(process))
        } else {
            &&& out == (SyncOutcome { ret: 0, action: SyncAction::Down { sem_id } })
            &&& need_recorded(old(process).tasks@, final(process).tasks@, current as int, (true, sem_id))
            &&& tables_unchanged(*old(process), *final(process))
        },
{
    if process.deaddetection && detect_deadlock(
        &process.tasks,
        &process.mutex_list,
        &process.semaphore_list,
        current,
        true,
        sem_id,
    ) {
        return SyncOutcome { ret: DEADLOCK_DETECTED, action: SyncAction::Nothing };
    }
    set_need_resource(&mut process.tasks, current, true, sem_id);
    SyncOutcome { ret: 0, action: SyncAction::Down { sem_id } }
}

/// Creates a condition variable in the lowest empty slot of the condition
/// variable table (a new slot when none is empty), and returns its id.
pub fn sys_condvar_create(process: &mut ProcessSync) -> (ret: isize)
    requires
        old(process).condvar_list.len() < usize::MAX,
    ensures
        exists|id: int|
            #![trigger placed(old(process).condvar_list@, id, CondvarInfo {})]
            lowest_free(old(process).condvar_list@, id) && ret == id as isize
                && final(process).condvar_list@ == placed(old(process).condvar_list@, id, CondvarInfo {}),
        final(process).tasks@ == old(process).tasks@,
        final(process).mutex_list@ == old(process).mutex_list@,
        final(process).semaphore_list@ == old(process).semaphore_list@,
        final(process).deaddetection == old(process).deaddetection,
{
    let id = alloc_slot(&mut process.condvar_list, CondvarInfo {});
    #[verifier::truncate]
    (id as isize)
}

/// Wakes a task waiting on condition variable `condvar_id`; returns 0.
pub fn sys_condvar_signal(process: &ProcessSync, condvar_id: usize) -> (out: SyncOutcome)
    requires
        condvar_id < process.condvar_list.len(),
        process.condvar_list@[condvar_id as int] is Some,
    ensures
        out == (SyncOutcome { ret: 0, action: SyncAction::Signal { condvar_id } }),
{
    SyncOutcome { ret: 0, action: SyncAction::Signal { condvar_id } }
}

/// The current task waits on condition variable `condvar_id`, releasing mutex
/// `mutex_id` while it waits; returns 0.
pub fn sys_condvar_wait(process: &ProcessSync, condvar_id: usize, mutex_id: usize) -> (out: SyncOutcome)
    requires
        condvar_id < process.condvar_list.len(),
        process.condvar_list@[condvar_id as int] is Some,
        mutex_id < process.mutex_list.len(),
        process.mutex_list@[mutex_id as int] is Some,
    ensures
        out == (SyncOutcome { ret: 0, action: SyncAction::Wait { condvar_id, mutex_id } }),
{
    SyncOutcome { ret: 0, action: SyncAction::Wait { condvar_id, mutex_id } }
}

/// Turns deadlock detection off when `enabled` is 0 and on otherwise; returns 0.
pub fn sys_enable_deadlock_detect(process: &mut ProcessSync, enabled: usize) -> (ret: isize)
    ensures
        ret == 0,
        final(process).deaddetection == (enabled != 0),
        final(process).tasks@ == old(process).tasks@,
        final(process).mutex_list@ == old(process).mutex_list@,
        final(process).semaphore_list@ == old(process).semaphore_list@,
        final(process).condvar_list@ == old(process).condvar_list@,
{
    if enabled == 0 {
        process.deaddetection = false;
    } else {
        process.deaddetection = true;
    }
    0
}

} // verus!
