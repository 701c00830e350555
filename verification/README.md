# mg

A small asynchronous kernel for deeply embedded systems, written in Verus:
actors bound to interrupt vectors, FIFO message queues, channels, message
pools, a per-priority executor and a hierarchical software timer.

Layout:

- `src/` — the verified library.
  - `list.rs`: circular doubly-linked FIFO queues over a table of link
    records (`QueueRef`, `QueueMut`, `Mut`), with the FIFO law.
  - `bits.rs`: most significant bit of a word and the carry facts of a tick.
  - `timer.rs`: the timer hierarchy (`PerCpuTimer`, `Timer`) and the
    decision of a sleeping task (`TimeoutFuture`), with the law that a
    waiter registered for `d` ticks fires on the `d`-th tick.
  - `channel.rs`, `msg.rs`, `pool.rs`: channels, messages and pools.
  - `actor.rs`, `executor.rs`: actors and the run queues.
  - `utils.rs`: CPU-local helpers.
- `tests/` — tests of the library, including an end-to-end
  scenario (`main`) driven through the library's state machines.
- `app/` — what runs around the library: interrupt masking, critical
  sections, storage for futures, wakers, the `Future` adapters of
  `sleep_for`, `block_on` and `get`, `bind`, and `Pooled`, an envelope
  that gives its message back to its pool when dropped.

Objects that wait in queues are named by `usize` identifiers; a waker,
a future or a payload is found by that identifier outside the queues.

The executor does not raise interrupts itself: activating or starting an
actor returns the CPU and vector to raise, and `app/` raises them.

The timer's tick count is a `u32` that does not wrap around: it stops being
usable at `u32::MAX` ticks (about 49 days at 1 kHz).
