//! A tracing, mark-and-sweep garbage collector for interpreted-language runtimes.
//!
//! Values are allocated into a [`Heap`] and named by [`Gc`] handles: a slot index
//! plus a generation stamp. Objects refer to one another by storing handles, and
//! report them to the collector through the [`Trace`] trait. [`Heap::collect`]
//! keeps exactly the objects reachable from the roots it is given and reclaims the
//! rest, cycles included; a handle to a reclaimed object resolves to `None`.

mod error;
mod graph;
mod handle;
mod heap;
mod laws;
mod trace;

pub use error::GcError;
pub use handle::Gc;
pub use heap::{CollectStats, Heap};
pub use trace::{Trace, Tracer};
