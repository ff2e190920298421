# Verified kernel pieces

Parts of a teaching kernel, written in Verus and proved against their contracts.

- `sync::resource_status` — per-process bookkeeping of locks and semaphores
  (free counts, what each task holds, what each task still needs) and the
  deadlock check of the banker's algorithm. `sync::safety` holds the model:
  a state is safe when some order lets every task finish, and the check
  answers exactly that.
- `task::scheduling` — the stride scheduler's ready queue: the task with the
  smallest stride runs next, and its stride grows by `BIG_STRIDE / priority`.
- `mm` — page tables as maps from virtual pages to entries, physical memory
  as frames, and `UserRef`, which reads and writes user memory page by page
  with a permission check on each page.
- `syscall::process` — what the process system calls decide and compute; the
  scheduler, the timer and the memory set of the current task hand their
  state and results in as arguments.
