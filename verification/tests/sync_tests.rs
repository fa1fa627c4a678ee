use rcore_syscalls::sync::{
    deadlock_check_fits, detect_deadlock, mark_resource_released, set_need_resource, sys_condvar_create,
    sys_condvar_signal, sys_condvar_wait, sys_enable_deadlock_detect, sys_mutex_create,
    sys_mutex_lock, sys_mutex_unlock, sys_semaphore_create, sys_semaphore_down,
    sys_semaphore_up, sys_sleep, CondvarInfo, MutexInfo, ProcessSync, SemaphoreInfo,
    SyncAction, SyncOutcome, TaskResources, DEADLOCK_DETECTED,
};

fn task(allocation: Vec<(bool, usize)>, need: Option<(bool, usize)>) -> Option<TaskResources> {
    Some(TaskResources { allocation, need })
}

fn held(m: bool) -> Option<MutexInfo> {
    Some(MutexInfo { blocking: true, locked: m })
}

/// Two tasks, two locked mutexes: task 0 holds mutex 0, task 1 holds mutex 1
/// and waits for mutex 0.
fn crossed() -> ProcessSync {
    ProcessSync {
        tasks: vec![task(vec![(false, 0)], None), task(vec![(false, 1)], Some((false, 0)))],
        mutex_list: vec![held(true), held(true)],
        semaphore_list: Vec::new(),
        condvar_list: Vec::new(),
        deaddetection: true,
    }
}

#[test]
fn crossed_mutexes_are_a_deadlock() {
    let p = crossed();
    assert!(detect_deadlock(&p.tasks, &p.mutex_list, &p.semaphore_list, 0, false, 1));
}

#[test]
fn free_mutex_is_no_deadlock() {
    let mut p = crossed();
    p.tasks[1] = task(vec![], None);
    p.mutex_list[1] = held(false);
    assert!(!detect_deadlock(&p.tasks, &p.mutex_list, &p.semaphore_list, 0, false, 1));
}

#[test]
fn semaphore_units_are_counted() {
    let p = ProcessSync {
        tasks: vec![task(vec![], None), task(vec![(true, 0)], Some((true, 0)))],
        mutex_list: vec![held(false)],
        semaphore_list: vec![Some(SemaphoreInfo { count: 1 })],
        condvar_list: Vec::new(),
        deaddetection: true,
    };
    // One unit left: task 0 takes it, finishes, then task 1 can go on.
    assert!(!detect_deadlock(&p.tasks, &p.mutex_list, &p.semaphore_list, 0, true, 0));
    let none_left = ProcessSync { semaphore_list: vec![Some(SemaphoreInfo { count: 0 })], ..p };
    assert!(detect_deadlock(
        &none_left.tasks,
        &none_left.mutex_list,
        &none_left.semaphore_list,
        0,
        true,
        0
    ));
}

#[test]
fn negative_count_means_no_units() {
    let p = ProcessSync {
        tasks: vec![task(vec![], None)],
        mutex_list: Vec::new(),
        semaphore_list: vec![Some(SemaphoreInfo { count: -3 })],
        condvar_list: Vec::new(),
        deaddetection: true,
    };
    assert!(detect_deadlock(&p.tasks, &p.mutex_list, &p.semaphore_list, 0, true, 0));
}

#[test]
fn empty_task_slots_never_block() {
    let p = ProcessSync {
        tasks: vec![None, task(vec![], None), None],
        mutex_list: vec![held(false)],
        semaphore_list: Vec::new(),
        condvar_list: Vec::new(),
        deaddetection: true,
    };
    assert!(!detect_deadlock(&p.tasks, &p.mutex_list, &p.semaphore_list, 1, false, 0));
}

#[test]
fn lock_refused_when_it_would_deadlock() {
    let mut p = crossed();
    let out = sys_mutex_lock(&mut p, 0, 1);
    assert_eq!(out, SyncOutcome { ret: DEADLOCK_DETECTED, action: SyncAction::Nothing });
    assert_eq!(DEADLOCK_DETECTED, -0xDEAD);
    assert_eq!(p.tasks[0].as_ref().unwrap().need, None);
}

#[test]
fn lock_granted_without_detection() {
    let mut p = crossed();
    assert_eq!(sys_enable_deadlock_detect(&mut p, 0), 0);
    assert!(!p.deaddetection);
    let out = sys_mutex_lock(&mut p, 0, 1);
    assert_eq!(out, SyncOutcome { ret: 0, action: SyncAction::Lock { mutex_id: 1 } });
    assert_eq!(p.tasks[0].as_ref().unwrap().need, Some((false, 1)));
    assert_eq!(p.tasks[0].as_ref().unwrap().allocation, vec![(false, 0)]);
}

#[test]
fn lock_granted_when_safe() {
    let mut p = crossed();
    p.tasks[1] = task(vec![], None);
    p.mutex_list[1] = held(false);
    let out = sys_mutex_lock(&mut p, 0, 1);
    assert_eq!(out.ret, 0);
    assert_eq!(out.action, SyncAction::Lock { mutex_id: 1 });
}

#[test]
fn enable_flag_follows_argument() {
    let mut p = crossed();
    sys_enable_deadlock_detect(&mut p, 0);
    assert!(!p.deaddetection);
    sys_enable_deadlock_detect(&mut p, 7);
    assert!(p.deaddetection);
}

#[test]
fn semaphore_down_refused_and_granted() {
    let mut p = ProcessSync {
        tasks: vec![task(vec![(true, 0)], None), task(vec![], Some((true, 0)))],
        mutex_list: Vec::new(),
        semaphore_list: vec![Some(SemaphoreInfo { count: 0 })],
        condvar_list: Vec::new(),
        deaddetection: true,
    };
    // Task 0 holds the only unit and asks for another: nobody can proceed.
    let out = sys_semaphore_down(&mut p, 0, 0);
    assert_eq!(out.ret, DEADLOCK_DETECTED);
    p.semaphore_list[0] = Some(SemaphoreInfo { count: 2 });
    let out = sys_semaphore_down(&mut p, 0, 0);
    assert_eq!(out, SyncOutcome { ret: 0, action: SyncAction::Down { sem_id: 0 } });
    assert_eq!(p.tasks[0].as_ref().unwrap().need, Some((true, 0)));
}

#[test]
fn create_reuses_lowest_empty_slot() {
    let mut p = ProcessSync {
        tasks: vec![task(vec![], None)],
        mutex_list: vec![held(true), None, None],
        semaphore_list: vec![None],
        condvar_list: Vec::new(),
        deaddetection: false,
    };
    assert_eq!(sys_mutex_create(&mut p, false), 1);
    assert_eq!(p.mutex_list[1], Some(MutexInfo { blocking: false, locked: false }));
    assert_eq!(sys_mutex_create(&mut p, true), 2);
    assert_eq!(sys_mutex_create(&mut p, true), 3);
    assert_eq!(p.mutex_list.len(), 4);
    assert_eq!(sys_semaphore_create(&mut p, 5), 0);
    assert_eq!(p.semaphore_list[0], Some(SemaphoreInfo { count: 5 }));
    assert_eq!(sys_semaphore_create(&mut p, 2), 1);
    assert_eq!(sys_condvar_create(&mut p), 0);
    assert_eq!(sys_condvar_create(&mut p), 1);
    assert_eq!(p.condvar_list, vec![Some(CondvarInfo {}), Some(CondvarInfo {})]);
}

#[test]
fn release_swaps_last_into_place() {
    let mut tasks = vec![task(vec![(false, 0), (true, 1), (false, 0), (true, 2)], Some((true, 9)))];
    mark_resource_released(&mut tasks, 0, false, 0);
    let t = tasks[0].as_ref().unwrap();
    assert_eq!(t.allocation, vec![(true, 2), (true, 1), (false, 0)]);
    assert_eq!(t.need, Some((true, 9)));
}

#[test]
fn release_of_unheld_resource_changes_nothing() {
    let mut tasks = vec![task(vec![(false, 0), (true, 1)], None)];
    mark_resource_released(&mut tasks, 0, true, 0);
    assert_eq!(tasks[0].as_ref().unwrap().allocation, vec![(false, 0), (true, 1)]);
}

#[test]
fn set_need_replaces_previous_need() {
    let mut tasks = vec![task(vec![(false, 3)], Some((false, 1))), task(vec![], None)];
    set_need_resource(&mut tasks, 0, true, 4);
    assert_eq!(tasks[0].as_ref().unwrap().need, Some((true, 4)));
    assert_eq!(tasks[0].as_ref().unwrap().allocation, vec![(false, 3)]);
    assert!(tasks[1].as_ref().unwrap().need.is_none());
}

#[test]
fn unlock_and_up_release_one_unit() {
    let mut p = ProcessSync {
        tasks: vec![task(vec![(false, 0), (true, 0), (true, 0)], None)],
        mutex_list: vec![held(true)],
        semaphore_list: vec![Some(SemaphoreInfo { count: 0 })],
        condvar_list: Vec::new(),
        deaddetection: false,
    };
    let out = sys_mutex_unlock(&mut p, 0, 0);
    assert_eq!(out, SyncOutcome { ret: 0, action: SyncAction::Unlock { mutex_id: 0 } });
    assert_eq!(p.tasks[0].as_ref().unwrap().allocation, vec![(true, 0), (true, 0)]);
    let out = sys_semaphore_up(&mut p, 0, 0);
    assert_eq!(out, SyncOutcome { ret: 0, action: SyncAction::Up { sem_id: 0 } });
    assert_eq!(p.tasks[0].as_ref().unwrap().allocation, vec![(true, 0)]);
}

#[test]
fn condvar_calls_forward_to_the_primitive() {
    let p = ProcessSync {
        tasks: vec![task(vec![], None)],
        mutex_list: vec![held(false)],
        semaphore_list: Vec::new(),
        condvar_list: vec![Some(CondvarInfo {})],
        deaddetection: false,
    };
    assert_eq!(
        sys_condvar_signal(&p, 0),
        SyncOutcome { ret: 0, action: SyncAction::Signal { condvar_id: 0 } }
    );
    assert_eq!(
        sys_condvar_wait(&p, 0, 0),
        SyncOutcome { ret: 0, action: SyncAction::Wait { condvar_id: 0, mutex_id: 0 } }
    );
}

#[test]
fn sleep_expires_after_the_delay() {
    assert_eq!(
        sys_sleep(1000, 250),
        SyncOutcome { ret: 0, action: SyncAction::SleepUntil { expire_ms: 1250 } }
    );
}

#[test]
fn grantable_request_is_not_refused() {
    // Every recorded need and the new request fit in what is free now.
    let p = ProcessSync {
        tasks: vec![task(vec![(false, 1)], None), task(vec![], Some((true, 0))), None],
        mutex_list: vec![held(false), held(true)],
        semaphore_list: vec![Some(SemaphoreInfo { count: 2 })],
        condvar_list: Vec::new(),
        deaddetection: true,
    };
    assert!(!detect_deadlock(&p.tasks, &p.mutex_list, &p.semaphore_list, 0, true, 0));
    assert!(!detect_deadlock(&p.tasks, &p.mutex_list, &p.semaphore_list, 0, false, 0));
}

#[test]
fn refused_request_leaves_state_as_it_was() {
    let mut p = crossed();
    let out = sys_mutex_lock(&mut p, 0, 1);
    assert_eq!(out.ret, DEADLOCK_DETECTED);
    let t0 = p.tasks[0].as_ref().unwrap();
    let t1 = p.tasks[1].as_ref().unwrap();
    assert_eq!((t0.allocation.clone(), t0.need), (vec![(false, 0)], None));
    assert_eq!((t1.allocation.clone(), t1.need), (vec![(false, 1)], Some((false, 0))));
    assert_eq!(p.mutex_list, vec![held(true), held(true)]);
    assert!(p.deaddetection);
}

#[test]
fn stuck_tasks_with_a_full_semaphore_still_get_an_answer() {
    // Task 0 holds mutex 0 and a unit of semaphore 0, task 1 holds mutex 1
    // and waits for mutex 0; task 0 asks for mutex 1. No task can finish, so
    // the semaphore's free units are never added to.
    let p = ProcessSync {
        tasks: vec![task(vec![(false, 0), (true, 0)], None), task(vec![(false, 1)], Some((false, 0)))],
        mutex_list: vec![held(true), held(true)],
        semaphore_list: vec![Some(SemaphoreInfo { count: u32::MAX as isize })],
        condvar_list: Vec::new(),
        deaddetection: true,
    };
    assert!(deadlock_check_fits(&p.tasks, &p.mutex_list, &p.semaphore_list, 0, false, 1));
    assert!(detect_deadlock(&p.tasks, &p.mutex_list, &p.semaphore_list, 0, false, 1));
}

#[test]
fn counters_that_would_overflow_are_reported() {
    // Task 0 can finish and gives its unit back to a semaphore whose free
    // units already fill a u32.
    let p = ProcessSync {
        tasks: vec![task(vec![(true, 0)], None), task(vec![], None)],
        mutex_list: Vec::new(),
        semaphore_list: vec![Some(SemaphoreInfo { count: u32::MAX as isize })],
        condvar_list: Vec::new(),
        deaddetection: true,
    };
    assert!(!deadlock_check_fits(&p.tasks, &p.mutex_list, &p.semaphore_list, 1, true, 0));
    let q = ProcessSync { semaphore_list: vec![Some(SemaphoreInfo { count: 5 })], ..p };
    assert!(deadlock_check_fits(&q.tasks, &q.mutex_list, &q.semaphore_list, 1, true, 0));
}

#[test]
fn more_free_units_never_add_a_deadlock() {
    let p = crossed();
    assert!(detect_deadlock(&p.tasks, &p.mutex_list, &p.semaphore_list, 0, false, 1));
    // The same state with mutex 1 free: no deadlock, and none with mutex 0
    // free as well.
    let mut q = crossed();
    q.mutex_list[1] = held(false);
    assert!(!detect_deadlock(&q.tasks, &q.mutex_list, &q.semaphore_list, 0, false, 1));
    q.mutex_list[0] = held(false);
    assert!(!detect_deadlock(&q.tasks, &q.mutex_list, &q.semaphore_list, 0, false, 1));
}
