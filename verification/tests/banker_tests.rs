use rcore_syscalls::banker::find_unsafe;

#[test]
fn released_units_let_the_waiting_task_finish() {
    // Task 1 holds the only unit and waits for nothing; task 0 waits for it.
    let need = vec![vec![1u32], vec![0u32]];
    let alloc = vec![vec![0u32], vec![1u32]];
    assert!(!find_unsafe(&need, &alloc, vec![0]));
}

#[test]
fn crossed_holds_are_unsafe() {
    let need = vec![vec![0u32, 1], vec![1u32, 0]];
    let alloc = vec![vec![1u32, 0], vec![0u32, 1]];
    assert!(find_unsafe(&need, &alloc, vec![0, 0]));
}

#[test]
fn needs_that_fit_are_safe() {
    let need = vec![vec![1u32, 2], vec![2u32, 0], vec![0u32, 0]];
    let alloc = vec![vec![5u32, 0], vec![0u32, 7], vec![1u32, 1]];
    assert!(!find_unsafe(&need, &alloc, vec![2, 2]));
}

#[test]
fn no_tasks_is_safe() {
    let need: Vec<Vec<u32>> = Vec::new();
    let alloc: Vec<Vec<u32>> = Vec::new();
    assert!(!find_unsafe(&need, &alloc, vec![0, 3]));
}

#[test]
fn order_matters_not_for_the_answer() {
    // Task 0 can only run after task 2, and task 2 only after task 1.
    let need = vec![vec![2u32], vec![0u32], vec![1u32]];
    let alloc = vec![vec![0u32], vec![1u32], vec![1u32]];
    assert!(!find_unsafe(&need, &alloc, vec![0]));
    // Task 0 needs more than everything there is.
    let need = vec![vec![3u32], vec![0u32], vec![1u32]];
    assert!(find_unsafe(&need, &alloc, vec![0]));
}
