# bad-ideas

Canonical-ABI transfers for dynamic calls of WebAssembly components, verified with
[Verus](https://github.com/verus-lang/verus), and the benchmark scenario around them.

A host that drives guests whose types it never saw at build time provides every argument through
a tree of *sources*: dynamic values, pre-validated canonical bytes, records and lists put together
from either, columns that are gathered on demand, slices of an arena, streams. The library lowers
such a tree into guest memory and core values, hands them to the guest, and lifts results back.
What is proved of it, in short: a guest cannot tell which representation was chosen, an eager and
a lazy runtime see the same bytes, nothing but valid images is handed over, and what is handed over
arrives.

## Layout

- `src/layout.rs`, `value.rs`, `validity.rs`: interface types, values, their canonical images, and
  which bytes are images.
- `src/store.rs`, `lower.rs`, `lift.rs`: guest memory, and moving values into and out of it.
- `src/source.rs`, `arena.rs`, `stream.rs`, `shape.rs`: the source tree and the shapes that a call
  is prepared with.
- `src/guest.rs`, `call.rs`: guests, host functions, prepared and bound calls.
- `src/laws.rs`, `arrival.rs`: what holds of all of it together.
- `src/archetype.rs`, `column.rs`, `guests.rs`, `floats.rs`, `demos.rs`, `float_demos.rs`: complete calls, with
  what comes out of them.
- `src/prng.rs`, `scenario.rs`, `simulation.rs`, `batch.rs`: the benchmark scenario.
- `src/results.rs`, `report.rs`, `text.rs`, `figure.rs`: its results, and the report made of them.
- `tests/`: tests of the library.
- `app/`: the program around it: the demos, the benchmark drivers and the report. `app/guests/`
  holds the guests, each the root of a package of its own that is built for `wasm32-wasip2`.

Floating-point numbers appear in `src/` as their bit patterns, `F32Bits`. Where floats are added or
multiplied, the operation comes in as a function, and the library says which numbers it is applied
to and in which order.
