# cbcast

Causal broadcast (CBCAST, after Birman et al.): each process keeps a vector
clock, stamps the messages it broadcasts with it, and delivers a received
message only once the messages it causally depends on have been delivered;
the others wait in a queue.

- `src/` is the verified library (Verus): the clock (`clock.rs`), its
  comparison (`order.rs`), the message (`message.rs`), the process with its
  view group and waiting queue (`process.rs`), a plain vector clock
  (`vector_clock.rs`, `vector_order.rs`), text rendering (`render.rs`) and the
  properties proved across calls (`laws.rs`).
- Process ids are `i32` throughout: the clocks are hash maps keyed by
  process id, and Verus specifies those maps for integer keys.
- `app/` is the networked program: TCP connections, JSON on the wire (serde),
  and two demonstration runs.
- `tests/` runs the library on concrete clocks and processes.
