//! The decision logic behind a teaching kernel's system calls: file
//! descriptor tables, child reaping, memory-map argument checks, and the
//! synchronisation calls with their deadlock check.

pub mod banker;
pub mod slots;
pub mod sync;
pub mod fs;
pub mod process;
