# gc_lang

A tracing mark-and-sweep garbage collector for interpreted-language runtimes,
written in Verus with its behaviour proved.

- `src/handle.rs` — `Gc`, a slot index plus a generation stamp.
- `src/trace.rs` — the `Trace` trait objects implement to report the handles they
  own, and the `Tracer` sink they report to.
- `src/graph.rs` — the object graph over a heap's slots and reachability from roots.
- `src/heap.rs` — `Heap`: allocation with slot reuse, resolution, and `collect`
  (mark phase over a packed bitset, sweep phase onto the free list).
- `src/laws.rs` — properties across operations: an allocation resolves and
  disturbs no other handle; a collection keeps exactly the reachable objects,
  ignores dead roots, is idempotent, and never lets a reclaimed handle resolve again;
  over whole runs of operations, a live handle keeps its value and a reclaimed one
  never resolves again (a slot whose generation reaches `u32::MAX` is retired).
- `src/error.rs` — `GcError`.

Handles record a slot and a generation but not the heap that minted them: a handle
reported while one heap collects is read as a slot of that heap.

The tests under `tests/` exercise the library at run time.
