use rcore_syscalls::process::{
    mmap_args_ok, sys_exec, sys_fork, sys_get_time, sys_mmap, sys_munmap, sys_sbrk,
    sys_set_priority, sys_spawn, sys_task_info, sys_waitpid, ChildProcess, MemAction, TaskStatus, TimeVal,
};

fn child(pid: usize, zombie: bool, exit_code: i32) -> ChildProcess {
    ChildProcess { pid, zombie, exit_code }
}

#[test]
fn waitpid_without_matching_child() {
    let mut c = vec![child(3, true, 0)];
    assert_eq!(sys_waitpid(&mut c, 4), (-1, None));
    let mut none: Vec<ChildProcess> = Vec::new();
    assert_eq!(sys_waitpid(&mut none, -1), (-1, None));
    assert_eq!(c.len(), 1);
}

#[test]
fn waitpid_with_running_child() {
    let mut c = vec![child(3, false, 0), child(5, true, 9)];
    assert_eq!(sys_waitpid(&mut c, 3), (-2, None));
    assert_eq!(c.len(), 2);
}

#[test]
fn waitpid_reaps_first_exited_child() {
    let mut c = vec![child(3, false, 0), child(5, true, 9), child(6, true, 4)];
    assert_eq!(sys_waitpid(&mut c, -1), (5, Some(9)));
    assert_eq!(c, vec![child(3, false, 0), child(6, true, 4)]);
    assert_eq!(sys_waitpid(&mut c, 6), (6, Some(4)));
    assert_eq!(sys_waitpid(&mut c, 6), (-1, None));
    assert_eq!(sys_waitpid(&mut c, -1), (-2, None));
}

#[test]
fn negative_pid_other_than_minus_one_matches_nothing_here() {
    let mut c = vec![child(3, true, 1)];
    assert_eq!(sys_waitpid(&mut c, -2), (-1, None));
}

#[test]
fn fork_zeroes_child_a0() {
    let mut regs = [7usize; 32];
    assert_eq!(sys_fork(42, &mut regs), 42);
    assert_eq!(regs[10], 0);
    assert_eq!(regs[9], 7);
    assert_eq!(regs[11], 7);
}

#[test]
fn exec_and_sbrk_results() {
    assert_eq!(sys_exec(true), 0);
    assert_eq!(sys_exec(false), -1);
    assert_eq!(sys_sbrk(Some(0x1000)), 0x1000);
    assert_eq!(sys_sbrk(None), -1);
}

#[test]
fn priority_below_two_refused() {
    let mut prio: isize = 16;
    assert_eq!(sys_set_priority(&mut prio, 1), -1);
    assert_eq!(prio, 16);
    assert_eq!(sys_set_priority(&mut prio, 2), 2);
    assert_eq!(prio, 2);
    assert_eq!(sys_set_priority(&mut prio, 1000), 1000);
    assert_eq!(prio, 1000);
}

#[test]
fn mmap_checks_alignment_and_permission() {
    assert!(mmap_args_ok(0x10000000, 3));
    assert!(!mmap_args_ok(0x10000001, 3));
    assert!(!mmap_args_ok(0x10000000, 0));
    assert!(!mmap_args_ok(0x10000000, 8));
    assert!(!mmap_args_ok(0x10000000, 0xf));
    assert_eq!(sys_mmap(0x10000000, 4096, 3, 0), (0, MemAction::MapArea { start: 0x10000000, len: 4096, port: 3 }));
    assert_eq!(sys_mmap(0x10000000, 4096, 3, -1), (-1, MemAction::Nothing));
    assert_eq!(sys_mmap(0x10000004, 4096, 3, 0), (-1, MemAction::Nothing));
    assert_eq!(sys_mmap(0x10000000, 4096, 0, 0), (-1, MemAction::Nothing));
}

#[test]
fn munmap_checks_alignment() {
    assert_eq!(sys_munmap(0x2000, 0x3000, 0), (0, MemAction::UnmapArea { start: 0x2000, end: 0x5000 }));
    assert_eq!(sys_munmap(0x2000, 0x3000, -1), (-1, MemAction::Nothing));
    assert_eq!(sys_munmap(0x2010, 0x3000, 0), (-1, MemAction::Nothing));
}

#[test]
fn time_and_task_info_values() {
    assert_eq!(sys_get_time(3_500_000), TimeVal { sec: 3, usec: 500_000 });
    assert_eq!(sys_get_time(999_999), TimeVal { sec: 0, usec: 999_999 });
    assert_eq!(sys_get_time(2_000_000), TimeVal { sec: 2, usec: 0 });
    let mut counts = [0u32; 500];
    counts[64] = 3;
    let info = sys_task_info(1500, 200, counts);
    assert_eq!(info.status, TaskStatus::Running);
    assert_eq!(info.time, 1300);
    assert_eq!(info.syscall_times[64], 3);
    assert_eq!(info.syscall_times[63], 0);
}

#[test]
fn spawn_returns_child_pid_or_minus_one() {
    assert_eq!(sys_spawn(Some(17)), 17);
    assert_eq!(sys_spawn(None), -1);
}
