use rcore_syscalls::fs::{
    file_stat, sys_close, sys_fstat, sys_open, sys_read, sys_write, FileHandle, Stat, StatMode,
};

fn file(id: usize, readable: bool, writable: bool) -> Option<FileHandle> {
    Some(FileHandle { id, readable, writable })
}

fn table() -> Vec<Option<FileHandle>> {
    vec![file(0, true, false), file(1, false, true), None, file(3, true, true)]
}

#[test]
fn write_needs_a_writable_open_descriptor() {
    let t = table();
    assert_eq!(sys_write(&t, 0), Err(-1));
    assert_eq!(sys_write(&t, 1), Ok(FileHandle { id: 1, readable: false, writable: true }));
    assert_eq!(sys_write(&t, 2), Err(-1));
    assert_eq!(sys_write(&t, 4), Err(-1));
    assert_eq!(sys_write(&t, usize::MAX), Err(-1));
}

#[test]
fn read_needs_a_readable_open_descriptor() {
    let t = table();
    assert_eq!(sys_read(&t, 0), Ok(FileHandle { id: 0, readable: true, writable: false }));
    assert_eq!(sys_read(&t, 1), Err(-1));
    assert_eq!(sys_read(&t, 2), Err(-1));
    assert_eq!(sys_read(&t, 3), Ok(FileHandle { id: 3, readable: true, writable: true }));
    assert_eq!(sys_read(&t, 9), Err(-1));
}

#[test]
fn open_takes_lowest_free_descriptor() {
    let mut t = table();
    assert_eq!(sys_open(&mut t, file(7, true, false)), 2);
    assert_eq!(t[2], file(7, true, false));
    assert_eq!(sys_open(&mut t, file(8, false, true)), 4);
    assert_eq!(t.len(), 5);
    assert_eq!(sys_open(&mut t, None), -1);
    assert_eq!(t.len(), 5);
}

#[test]
fn close_frees_an_open_descriptor_once() {
    let mut t = table();
    assert_eq!(sys_close(&mut t, 1), 0);
    assert_eq!(t[1], None);
    assert_eq!(sys_close(&mut t, 1), -1);
    assert_eq!(sys_close(&mut t, 2), -1);
    assert_eq!(sys_close(&mut t, 40), -1);
    assert_eq!(t.len(), 4);
}

#[test]
fn closed_descriptor_cannot_be_used() {
    let mut t = table();
    assert_eq!(sys_close(&mut t, 3), 0);
    assert_eq!(sys_read(&t, 3), Err(-1));
    assert_eq!(sys_write(&t, 3), Err(-1));
    assert_eq!(sys_fstat(&t, 3), Err(-1));
}

#[test]
fn open_after_close_reuses_the_descriptor() {
    let mut t = table();
    assert_eq!(sys_close(&mut t, 0), 0);
    assert_eq!(sys_open(&mut t, file(9, true, true)), 0);
    assert_eq!(t[0], file(9, true, true));
}

#[test]
fn fstat_finds_open_files() {
    let t = table();
    assert_eq!(sys_fstat(&t, 1), Ok(FileHandle { id: 1, readable: false, writable: true }));
    assert_eq!(sys_fstat(&t, 2), Err(-1));
    assert_eq!(sys_fstat(&t, 4), Err(-1));
}

#[test]
fn stat_kind_follows_type_bits() {
    assert_eq!(
        file_stat(12, 0o040000, 2),
        Stat { dev: 0, ino: 12, mode: StatMode::Dir, nlink: 2 }
    );
    assert_eq!(file_stat(5, 0o100000, 1).mode, StatMode::File);
    assert_eq!(file_stat(5, 0o120000, 1).mode, StatMode::Null);
    assert_eq!(file_stat(5, 0, 3).nlink, 3);
}

#[test]
fn close_after_open_succeeds_once() {
    let mut t = table();
    let fd = sys_open(&mut t, file(11, true, true));
    assert_eq!(fd, 2);
    assert_eq!(sys_close(&mut t, fd as usize), 0);
    assert_eq!(sys_close(&mut t, fd as usize), -1);
}
