# zkvm_executor

The execution phase of a zkVM, verified with Verus.

A guest program is run instruction by instruction. The executor counts the cycles
that its proof will take, cuts the execution off where a segment is full, answers
calls of the guest (halting, input, SHA-256 blocks, big integers, system calls of
the host), and hands each complete segment to the host. A run ends when the guest
halts, pauses or faults, and gives out a session.

## Layout

* `src/platform.rs`, `src/words.rs`: constants, and words as bytes
* `src/types.rs`, `src/segment.rs`: the values that go in and out
* `src/guest.rs`, `src/monitor.rs`, `src/access.rs`: guest memory and registers,
  with commit and undo
* `src/sha.rs`, `src/bigint.rs`, `src/hart.rs`: what `sha2`, `crypto-bigint` and
  `rrs-lib` compute, and what is trusted about them
* `src/state.rs`, `src/host.rs`, `src/session.rs`, `src/turns.rs`: the model of the
  executor, of its host, and of a run
* `src/ecall.rs`, `src/executor.rs`: the executor
* `src/laws.rs`, `src/session_laws.rs`, `src/replay_laws.rs`, `src/guest_laws.rs`,
  `src/sha_laws.rs`: what holds of it
* `app/`: a host with files, logs, listeners and debug information

## Conventions

Cycles are `u64`. Every method of the executor states its result and the state
that it leaves behind as a function of the state before, and of what the host
answered. `R` is whatever the host makes of a segment.
