# rcore_syscalls

The decision logic of a teaching kernel's system calls, verified with Verus.

- `src/banker.rs`: the banker's safety check. `find_unsafe` returns true
  exactly when no order lets every task finish (`is_safe`).
- `src/sync.rs`: mutexes, semaphores and condition variables of a process, the
  record of what each task holds and waits for, and `detect_deadlock`, which
  builds the need and allocation matrices and runs the safety check. Each call
  returns the value for the task and the action to perform on the primitive.
- `src/slots.rs`: numbered tables that reuse the lowest empty slot.
- `src/fs.rs`: descriptor table calls (read, write, open, close, fstat).
- `src/process.rs`: waitpid, fork, exec, sbrk, priority, mmap/munmap argument
  checks, and the values of the time and task-information calls.
- `app/`: the entry points, over a `Kernel` trait for the services of the rest
  of the kernel (tasks, user memory, files, page tables, primitives).
- `tests/`: tests of the library on concrete values.
