//! The process system calls, decided on plain values: reaping a child, what
//! fork, exec, sbrk and the priority call return, the argument checks of
//! mmap and munmap, and the values that the time and task-information calls
//! copy out to the user. Switching tasks, loading programs and walking page
//! tables are left to the caller.
use vstd::prelude::*;

verus! {

/// The size of a page, in bytes.
pub const PAGE_SIZE: usize = 4096;

/// The number of system call counters kept for a task.
pub const MAX_SYSCALL_NUM: usize = 500;

/// A time as handed to the user by the time call.
#[derive(Clone, Copy, Debug, PartialEq, Eq, Structural)]
pub struct TimeVal {
    pub sec: usize,
    pub usec: usize,
}

/// The state of a task in its life cycle.
#[derive(Clone, Copy, Debug, PartialEq, Eq, Structural)]
pub enum TaskStatus {
    Ready,
    Running,
    Blocked,
}

/// Task information as handed to the user: its status, how many times it made
/// each system call, and how long it has run, in milliseconds.
pub struct TaskInfo {
    pub status: TaskStatus,
    pub syscall_times: [u32; 500],
    pub time: usize,
}

/// A child of the current process: its pid, whether it has exited, and its
/// exit code.
#[derive(Clone, Copy, Debug, PartialEq, Eq, Structural)]
pub struct ChildProcess {
    pub pid: usize,
    pub zombie: bool,
    pub exit_code: i32,
}

/// `pid` asks for the child `child_pid`: -1 asks for any child.
pub open spec fn waits_for(pid: isize, child_pid: usize) -> bool {
    pid == -1 || pid as usize == child_pid
}

/// `i` is the first child that has exited and that `pid` asks for.
pub open spec fn first_reapable(children: Seq<ChildProcess>, pid: isize, i: int) -> bool {
    &&& 0 <= i < children.len()
    &&& children[i].zombie && waits_for(pid, children[i].pid)
    &&& forall|j: int|
        0 <= j < i ==> !(#[trigger] children[j].zombie && waits_for(pid, children[j].pid))
}

/// Waits for a child: -1 when no child is the one asked for; -2 when such
/// children exist but none has exited; otherwise the first exited child asked
/// for is removed from the children and its pid is returned together with its
/// exit code, which the caller copies to the user.
pub fn sys_waitpid(children: &mut Vec<ChildProcess>, pid: isize) -> (out: (isize, Option<i32>))
    ensures
        !(exists|i: int| 0 <= i < old(children).len() && waits_for(pid, #[trigger] old(children)@[i].pid))
            ==> out == (-1isize, None::<i32>) && final(children)@ == old(children)@,
        (exists|i: int| 0 <= i < old(children).len() && waits_for(pid, #[trigger] old(children)@[i].pid))
            && !(exists|i: int| first_reapable(old(children)@, pid, i)) ==> out == (-2isize, None::<i32>)
            && final(children)@ == old(children)@,
        forall|i: int|
            #[trigger] first_reapable(old(children)@, pid, i) ==> out == (
                old(children)@[i].pid as isize,
                Some(old(children)@[i].exit_code),
            ) && final(children)@ == old(children)@.remove(i),
{
    let mut k: usize = 0;
    let mut any = false;
    while k < children.len()
        invariant
            k <= children.len(),
            any <==> exists|i: int| 0 <= i < k && waits_for(pid, #[trigger] children@[i].pid),
        decreases children.len() - k,
    {
        let hit = pid == -1 || #[verifier::truncate] (pid as usize) == children[k].pid;
        assert(hit == waits_for(pid, children@[k as int].pid));
        if hit {
            any = true;
        }
        k = k + 1;
    }
    if !any {
        return (-1, None);
    }
    let mut idx: usize = 0;
    while idx < children.len() && !(children[idx].zombie && (pid == -1 || #[verifier::truncate] (pid as usize)
        == children[idx].pid))
        invariant
            idx <= children.len(),
            forall|j: int|
                0 <= j < idx ==> !(#[trigger] children@[j].zombie && waits_for(pid, children@[j].pid)),
        decreases children.len() - idx,
    {
        idx = idx + 1;
    }
    if idx < children.len() {
        let ghost before = children@;
        let child = children.remove(idx);
        proof {
            assert(first_reapable(before, pid, idx as int));
            assert forall|i: int| first_reapable(before, pid, i) implies i == idx by {
                if i < idx {
                    assert(!(before[i].zombie && waits_for(pid, before[i].pid)));
                }
                if i > idx {
                    assert(!(before[idx as int].zombie && waits_for(pid, before[idx as int].pid)));
                }
            }
        }
        (#[verifier::truncate] (child.pid as isize), Some(child.exit_code))
    } else {
        (-2, None)
    }
}

/// A process found by waiting is taken out of the children, so waiting for it
/// again finds no child with that pid when pids are distinct.
pub proof fn law_reaped_child_is_gone(children: Seq<ChildProcess>, pid: isize, i: int)
    requires
        first_reapable(children, pid, i),
        forall|a: int, b: int|
            0 <= a < children.len() && 0 <= b < children.len() && a != b ==> #[trigger] children[a].pid
                != #[trigger] children[b].pid,
    ensures
        forall|j: int| 0 <= j < children.remove(i).len() ==> #[trigger] children.remove(i)[j].pid
            != children[i].pid,
        children.remove(i).len() + 1 == children.len(),
{
    assert forall|j: int| 0 <= j < children.remove(i).len() implies #[trigger] children.remove(i)[j].pid
        != children[i].pid by {
        if j < i {
            assert(children.remove(i)[j] == children[j]);
        } else {
            assert(children.remove(i)[j] == children[j + 1]);
        }
    }
}

/// Every exited child that `pid` asks for can be reaped, whatever its exit
/// code: the first such child is the one waiting reaps, so waiting never
/// answers -2 while one exists.
pub proof fn law_exited_child_is_reaped(children: Seq<ChildProcess>, pid: isize, k: int)
    requires
        0 <= k < children.len(),
        children[k].zombie,
        pid == -1 || pid as usize == children[k].pid,
    ensures
        exists|i: int|
            #![trigger first_reapable(children, pid, i)]
            first_reapable(children, pid, i) && 0 <= i <= k && children[i].zombie && (pid == -1 || pid as usize
                == children[i].pid) && forall|j: int|
                0 <= j < i ==> !(#[trigger] children[j].zombie && (pid == -1 || pid as usize
                    == children[j].pid)),
    decreases k,
{
    if exists|j: int| 0 <= j < k && #[trigger] children[j].zombie && (pid == -1 || pid as usize == children[j].pid) {
        let j = choose|j: int| 0 <= j < k && #[trigger] children[j].zombie && (pid == -1 || pid as usize
            == children[j].pid);
        law_exited_child_is_reaped(children, pid, j);
    } else {
        assert(first_reapable(children, pid, k));
    }
}

/// After fork: register a0 of the child's trap context is set to 0, so the
/// child sees 0, and the parent gets the child's pid.
pub fn sys_fork(child_pid: usize, child_regs: &mut [usize; 32]) -> (ret: isize)
    ensures
        ret == child_pid as isize,
        final(child_regs)@ == old(child_regs)@.update(10, 0),
{
    child_regs[10] = 0;
    #[verifier::truncate]
    (child_pid as isize)
}

/// Exec returns 0 when a program of that name was found (and loaded by the
/// caller), -1 otherwise.
pub fn sys_exec(found: bool) -> (ret: isize)
    ensures
        ret == if found {
            0isize
        } else {
            -1isize
        },
{
    if found {
        0
    } else {
        -1
    }
}

/// Sbrk returns the old program break when the break could be moved, -1
/// otherwise.
pub fn sys_sbrk(old_brk: Option<usize>) -> (ret: isize)
    ensures
        ret == match old_brk {
            Some(brk) => brk as isize,
            None => -1isize,
        },
{
    match old_brk {
        Some(brk) => #[verifier::truncate] (brk as isize),
        None => -1,
    }
}

/// Spawn returns the pid of the new child when a program of that name was
/// found (and started by the caller as a child of the current process), -1
/// otherwise.
pub fn sys_spawn(spawned: Option<usize>) -> (ret: isize)
    ensures
        ret == match spawned {
            Some(pid) => pid as isize,
            None => -1isize,
        },
{
    match spawned {
        Some(pid) => #[verifier::truncate] (pid as isize),
        None => -1,
    }
}

/// Sets the current task's priority to `prio` and returns it; a priority
/// below 2 is refused with -1 and the priority stays as it was.
pub fn sys_set_priority(priority: &mut isize, prio: isize) -> (ret: isize)
    ensures
        prio < 2 ==> ret == -1 && *final(priority) == *old(priority),
        prio >= 2 ==> ret == prio && *final(priority) == prio,
{
    if prio < 2 {
        return -1;
    }
    *priority = prio;
    prio
}

/// What the caller does on the address space after a memory call.
#[derive(Clone, Copy, Debug, PartialEq, Eq, Structural)]
pub enum MemAction {
    Nothing,
    MapArea { start: usize, len: usize, port: usize },
    UnmapArea { start: usize, end: usize },
}

/// The arguments of mmap are acceptable: the start is page aligned, and the
/// permission has only its three low bits, not all clear.
pub open spec fn mmap_args_valid(start: usize, port: usize) -> bool {
    &&& start % 4096 == 0
    &&& port & !7usize == 0
    &&& port & 7usize != 0
}

/// Mmap accepts exactly a page-aligned start and a permission from 1 to 7:
/// any other permission, 0 or one with a bit above the low three, is refused
/// whatever the start.
pub proof fn law_mmap_accepts_permissions_one_to_seven(start: usize, port: usize)
    ensures
        mmap_args_valid(start, port) <==> (start % 4096 == 0 && 1 <= port <= 7),
{
    assert((port & !7usize == 0 && port & 7usize != 0) <==> (1usize <= port && port <= 7usize)) by (bit_vector);
}

/// Checks the arguments of mmap as `mmap_args_valid` states.
pub fn mmap_args_ok(start: usize, port: usize) -> (ok: bool)
    ensures
        ok == mmap_args_valid(start, port),
{
    assert(start & 0xfffusize == start % 4096) by (bit_vector);
    !((start & 0xfff) != 0 || port & !0x7 != 0 || port & 0x7 == 0)
}

/// Maps `len` bytes at `start` with permission `port`: -1 when the arguments
/// are not acceptable, or when the page table reports (`unmapped_check` being
/// -1) that part of the range is mapped already; otherwise 0, and the caller
/// maps the range. The range must end within the address space.
pub fn sys_mmap(start: usize, len: usize, port: usize, unmapped_check: isize) -> (out: (isize, MemAction))
    requires
        mmap_args_valid(start, port) ==> start + len <= usize::MAX,
    ensures
        !mmap_args_valid(start, port) ==> out == (-1isize, MemAction::Nothing),
        mmap_args_valid(start, port) && unmapped_check == -1 ==> out == (-1isize, MemAction::Nothing),
        mmap_args_valid(start, port) && unmapped_check != -1 ==> out == (
            0isize,
            MemAction::MapArea { start, len, port },
        ),
{
    if !mmap_args_ok(start, port) {
        return (-1, MemAction::Nothing);
    }
    if unmapped_check == -1 {
        return (-1, MemAction::Nothing);
    }
    (0, MemAction::MapArea { start, len, port })
}

/// Unmaps the `len` bytes at `start`: -1 when `start` is not page aligned,
/// or when the page table reports (`mapped_check` being -1) that part of the
/// range is not mapped; otherwise 0, and the caller unmaps `start..start + len`.
pub fn sys_munmap(start: usize, len: usize, mapped_check: isize) -> (out: (isize, MemAction))
    requires
        start % 4096 == 0 ==> start + len <= usize::MAX,
    ensures
        start % 4096 != 0 ==> out == (-1isize, MemAction::Nothing),
        start % 4096 == 0 && mapped_check == -1 ==> out == (-1isize, MemAction::Nothing),
        start % 4096 == 0 && mapped_check != -1 ==> out == (
            0isize,
            MemAction::UnmapArea { start, end: (start + len) as usize },
        ),
{
    assert(start & 0xfffusize == start % 4096) by (bit_vector);
    if start & 0xfff != 0 {
        return (-1, MemAction::Nothing);
    }
    let end = start + len;
    if mapped_check == -1 {
        return (-1, MemAction::Nothing);
    }
    (0, MemAction::UnmapArea { start, end })
}

/// The time handed to the user, from the clock in microseconds: whole
/// seconds in `sec`, and the microseconds past the last whole second in
/// `usec`.
pub fn sys_get_time(now_us: usize) -> (tv: TimeVal)
    ensures
        tv.sec == now_us / 1000000,
        tv.usec == now_us % 1000000,
        tv.sec * 1000000 + tv.usec == now_us,
{
    TimeVal { sec: now_us / 1000000, usec: now_us % 1000000 }
}

/// The task information handed to the user: running, with its system call
/// counts, and the milliseconds since it first ran.
pub fn sys_task_info(now_ms: usize, first_run_ms: usize, syscall_times: [u32; 500]) -> (info: TaskInfo)
    requires
        first_run_ms <= now_ms,
    ensures
        info.status == TaskStatus::Running,
        info.syscall_times@ == syscall_times@,
        info.time == now_ms - first_run_ms,
{
    TaskInfo { status: TaskStatus::Running, syscall_times, time: now_ms - first_run_ms }
}

} // verus!
