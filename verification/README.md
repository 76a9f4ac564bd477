# rust_rb

Single-producer ring buffers in Rust, proved correct with Verus.

One producer hands messages to one or many consumers. A ring holds values of one
type or byte messages of any length, on the heap or in shared memory. A consumer
that is too slow either holds the producer back (`spmc`, and the anchors of
`anchored`) or loses messages and is told exactly how many (`broadcast`, and the
observers of `anchored`).

## Layout

- `src/` is the library. A ring is a plain value, and every operation takes it
  beside the handle: what an operation does to both is its contract. An operation
  that waits states what it waits for; a function to poll that stands beside it.
- `src/delivery.rs` and `src/delivery/` hold what the rings promise over runs of
  any length: a registered consumer is handed every message once and in order; a
  lossy reader moves by exactly what it is handed or told that it missed.
- `app/` runs the rings between threads and processes: locks, wait strategies,
  memory mappings, tear-down.
- `tests/` runs the library on concrete values.

## Concurrency

The operations are atomic steps on the shared value. What a reader may rely on
while a writer is in the middle of one is proved apart: `stamp` for slots with
generations, `bytelog` for rings of bytes, and the join protocol in `gate`.
