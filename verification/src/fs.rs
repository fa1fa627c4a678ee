//! The file system calls of one task, decided on its descriptor table: which
//! descriptor a read, write or stat goes to, which slot an opened file gets,
//! and what closing does. The transfer of bytes and the lookup of paths are
//! left to the caller.
use vstd::prelude::*;
use crate::slots::{alloc_slot, lowest_free, placed};

verus! {

/// An open file: the object it refers to, and how it was opened.
#[derive(Clone, Copy, Debug, PartialEq, Eq, Structural)]
pub struct FileHandle {
    pub id: usize,
    pub readable: bool,
    pub writable: bool,
}

/// The file behind descriptor `fd`, if `fd` is in the table and open.
pub open spec fn file_at(fd_table: Seq<Option<FileHandle>>, fd: int) -> Option<FileHandle> {
    if 0 <= fd < fd_table.len() {
        fd_table[fd]
    } else {
        None
    }
}

/// The file that descriptor `fd` writes to: `Err(-1)` when `fd` is not open
/// or its file was not opened for writing. The caller then writes the user's
/// buffer to the file and returns the number of bytes written.
pub fn sys_write(fd_table: &Vec<Option<FileHandle>>, fd: usize) -> (target: Result<FileHandle, isize>)
    ensures
        target == match file_at(fd_table@, fd as int) {
            Some(file) => if file.writable {
                Ok(file)
            } else {
                Err(-1isize)
            },
            None => Err(-1isize),
        },
{
    if fd >= fd_table.len() {
        return Err(-1);
    }
    match fd_table[fd] {
        Some(file) => {
            if !file.writable {
                return Err(-1);
            }
            Ok(file)
        },
        None => Err(-1),
    }
}

/// The file that descriptor `fd` reads from: `Err(-1)` when `fd` is not open
/// or its file was not opened for reading. The caller then reads into the
/// user's buffer and returns the number of bytes read.
pub fn sys_read(fd_table: &Vec<Option<FileHandle>>, fd: usize) -> (source: Result<FileHandle, isize>)
    ensures
        source == match file_at(fd_table@, fd as int) {
            Some(file) => if file.readable {
                Ok(file)
            } else {
                Err(-1isize)
            },
            None => Err(-1isize),
        },
{
    if fd >= fd_table.len() {
        return Err(-1);
    }
    match fd_table[fd] {
        Some(file) => {
            if !file.readable {
                return Err(-1);
            }
            Ok(file)
        },
        None => Err(-1),
    }
}

/// Installs a file the caller has opened (`None` when the path could not be
/// opened) in the lowest free descriptor, a new one when none is free, and
/// returns the descriptor; -1 when there is no file.
pub fn sys_open(fd_table: &mut Vec<Option<FileHandle>>, opened: Option<FileHandle>) -> (ret: isize)
    requires
        old(fd_table).len() < usize::MAX,
    ensures
        match opened {
            Some(file) => exists|fd: int|
                #![trigger placed(old(fd_table)@, fd, file)]
                lowest_free(old(fd_table)@, fd) && ret == fd as isize && final(fd_table)@ == placed(
                    old(fd_table)@,
                    fd,
                    file,
                ),
            None => ret == -1 && final(fd_table)@ == old(fd_table)@,
        },
{
    match opened {
        Some(file) => {
            let fd = alloc_slot(fd_table, file);
            #[verifier::truncate]
            (fd as isize)
        },
        None => -1,
    }
}

/// Closes descriptor `fd`: 0 and the descriptor becomes free, or -1 and
/// nothing changes when `fd` is not open.
pub fn sys_close(fd_table: &mut Vec<Option<FileHandle>>, fd: usize) -> (ret: isize)
    ensures
        file_at(old(fd_table)@, fd as int) is Some ==> ret == 0 && final(fd_table)@ == old(
            fd_table,
        )@.update(fd as int, None),
        file_at(old(fd_table)@, fd as int) is None ==> ret == -1 && final(fd_table)@ == old(
            fd_table,
        )@,
{
    if fd >= fd_table.len() {
        return -1;
    }
    if fd_table[fd].is_none() {
        return -1;
    }
    fd_table.set(fd, None);
    0
}

/// The file whose status descriptor `fd` asks for: `Err(-1)` when `fd` is
/// not open. The caller then reads the file's inode and copies `file_stat` of
/// it to the user.
pub fn sys_fstat(fd_table: &Vec<Option<FileHandle>>, fd: usize) -> (target: Result<FileHandle, isize>)
    ensures
        target == match file_at(fd_table@, fd as int) {
            Some(file) => Ok(file),
            None => Err(-1isize),
        },
{
    if fd >= fd_table.len() {
        return Err(-1);
    }
    match fd_table[fd] {
        Some(file) => Ok(file),
        None => Err(-1),
    }
}

/// The kind of a file as reported by a stat.
#[derive(Clone, Copy, Debug, PartialEq, Eq, Structural)]
pub enum StatMode {
    Null,
    Dir,
    File,
}

/// The type bits of an inode that is a directory.
pub const DIR_TYPE_BITS: u32 = 0o040000;

/// The type bits of an inode that is a regular file.
pub const FILE_TYPE_BITS: u32 = 0o100000;

/// The status of a file: device, inode number, kind and number of links.
#[derive(Clone, Copy, Debug, PartialEq, Eq, Structural)]
pub struct Stat {
    pub dev: u64,
    pub ino: u64,
    pub mode: StatMode,
    pub nlink: u32,
}

/// The status reported for an inode with number `ino`, type bits `type_bits`
/// and `nlink` links: device 0, a directory or a regular file by the type bits,
/// and no kind for any other type bits.
pub fn file_stat(ino: u64, type_bits: u32, nlink: u32) -> (stat: Stat)
    ensures
        stat.dev == 0,
        stat.ino == ino,
        stat.nlink == nlink,
        stat.mode == if type_bits == DIR_TYPE_BITS {
            StatMode::Dir
        } else if type_bits == FILE_TYPE_BITS {
            StatMode::File
        } else {
            StatMode::Null
        },
{
    let mut mode = StatMode::Null;
    if type_bits == DIR_TYPE_BITS {
        mode = StatMode::Dir;
    } else if type_bits == FILE_TYPE_BITS {
        mode = StatMode::File;
    }
    Stat { dev: 0, ino, mode, nlink }
}

/// Once a descriptor is closed, reading, writing or asking the status through
/// it fails with -1 until a file is opened again.
pub proof fn law_closed_descriptor_is_unusable(before: Seq<Option<FileHandle>>, fd: int)
    requires
        file_at(before, fd) is Some,
    ensures
        file_at(before.update(fd, None), fd) is None,
        before.update(fd, None).len() == before.len(),
{
}

/// Opening a file right after closing descriptor `fd` gives a descriptor no
/// greater than `fd`: freed descriptors are reused lowest first.
pub proof fn law_open_reuses_closed_descriptor(
    before: Seq<Option<FileHandle>>,
    fd: int,
    new_fd: int,
    file: FileHandle,
)
    requires
        file_at(before, fd) is Some,
        lowest_free(before.update(fd, None), new_fd),
    ensures
        new_fd <= fd,
        placed(before.update(fd, None), new_fd, file)[new_fd] == Some(file),
{
    if new_fd > fd {
        assert(before.update(fd, None)[fd] is None);
    }
}

/// A descriptor handed out by open is open: closing it succeeds (0), and
/// closing it again right after fails (-1). The descriptor comes back to the
/// caller as an `isize` and is turned back into the same `usize`.
pub proof fn law_close_after_open(before: Seq<Option<FileHandle>>, fd: int, file: FileHandle)
    requires
        lowest_free(before, fd),
        before.len() < isize::MAX,
    ensures
        ((fd as isize) as usize) as int == fd,
        file_at(placed(before, fd, file), fd) is Some,
        file_at(placed(before, fd, file).update(fd, None), fd) is None,
{
}

} // verus!
