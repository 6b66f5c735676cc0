# bbqueue

BBQueue, short for "BipBuffer Queue", is a single producer, single consumer
queue of bytes based on BipBuffers. The producer is granted a block of
contiguous memory to fill, and commits part of it; the consumer is granted
the contiguous run of committed bytes, and releases part of it. It is meant
as a first-in, first-out queue for use with DMA.

This crate is written in Verus: every step of the coordination between
producer and consumer is an exact transition of a small state machine over
the ring's indices, and the contracts state what each call does to the
queued bytes.

## Layout

- `src/traits/coordination`: the indices and grant flags (`CoordState`),
  their transitions, and the laws that tie them to the queued bytes. Two
  coordination handlers: `AtomicCoord`, and `CsCoord`, which takes a
  critical section (through the `critical-section` crate) for each step.
- `src/traits/storage.rs`, `src/traits/notifier.rs`: where the bytes live,
  and how producer and consumer are told about each other.
- `src/queue.rs`: the queue, whose model is the sequence of queued bytes.
- `src/prod_cons`: stream and framed producers and consumers.
- `src/classic`: the buffer that is split once into a producer and a
  consumer, with its framed flavor whose headers are variable sized
  integers (`src/vusize.rs`).
- `src/bbqueue.rs`: a six-byte buffer driven through one value.
- `src/waker.rs`, `src/signal.rs`: waker storage and a one-value signal.
- `tests/`: the test suite.
- `app/`: printed walk-throughs, and async waiting with `maitake-sync`.

Producer, consumer and grants name their queue by an argument of each call,
so that every change to the queue goes through one `&mut` reference.
