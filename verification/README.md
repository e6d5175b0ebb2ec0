# Process schedulers

Two process schedulers, verified with Verus: a round-robin scheduler
(`RoundRobin`) and a completely fair scheduler (`Cfs`). Each is driven by two
calls: `next` decides which process runs (or that the processor sleeps, that
no process is left, that the process with pid 1 is gone, or that the
processes are deadlocked), and `stop` handles a process that stopped, either
because its time slice expired or because it made a system call (fork, sleep,
wait, signal, exit).

Layout of `src/`:

- `process.rs`: pids, process states, system calls, decisions and the
  process record.
- `queue.rs`: the run queue as a sequence of processes, with the searches and
  updates both schedulers use, each with its specification.
- `shared.rs`: the state both schedulers keep (`SchedState` is its
  mathematical value) and the part of `next` they share.
- `round_robin.rs`, `cfs.rs`: the two schedulers. For each, `*_next` and
  `*_stop` state what `next` and `stop` do, and `*_next_ok` / `*_stop_ok` state
  exactly when they can run without a subtraction below zero, a division by
  zero, a missing process or a count past the range of `usize`; `can_next` and
  `can_stop` compute that condition.
- `laws.rs`: properties proved over all states and across calls.
- `pids.rs`: the pids a queue holds, counted as often as they occur, and
  the proofs that `next` and a signal keep them.

`app/` puts the schedulers behind the `Scheduler` and `Process` interfaces.
