//! Reachability tracing: the [`Trace`] contract and the [`Tracer`] sink.

use core::marker::PhantomData;
use vstd::prelude::*;

use crate::handle::Gc;

verus! {

/// Reports the outgoing [`Gc`] handles of a heap object so the collector can
/// follow them.
///
/// [`Heap::collect`](crate::Heap::collect) calls [`trace`](Trace::trace) on every
/// object it reaches, and the object calls [`Tracer::mark`] once per handle it
/// owns. `handles` names that list: the contract of `trace` is that it reports
/// exactly `self.handles()`, in order, and nothing else. A handle that is not
/// reported does not keep its object alive; reporting a handle that names no live
/// object is harmless.
///
/// A handle records a slot index and a generation, not the heap that minted it.
/// Every reported handle is read against the heap being collected: one minted by
/// another heap that happens to name a live slot of this heap keeps that slot's
/// object alive. Report only handles into the heap that holds the object.
///
/// An implementation verified with Verus defines `handles` to match what its
/// `trace` marks. The default, no handles, is right for objects that own none;
/// an implementation compiled without Verus cannot define `handles`, so for it
/// the contract of `trace`, and what [`Heap::collect`](crate::Heap::collect) is
/// proved to do, hold only when it marks nothing.
pub trait Trace {
    /// The handles this object owns, in the order `trace` reports them; by
    /// default none, as for a leaf object.
    open spec fn handles(&self) -> Seq<Gc> {
        Seq::empty()
    }

    /// Reports each handle this object owns by calling [`Tracer::mark`] on it.
    fn trace(&self, tracer: &mut Tracer<'_>)
        ensures
            final(tracer).reported() == old(tracer).reported() + self.handles(),
    ;
}

/// The sink a [`Trace`] implementation reports its outgoing handles to.
///
/// The heap builds one around its mark-phase work queue and hands it to
/// [`Trace::trace`]; each [`mark`](Tracer::mark) appends one handle to the queue.
pub struct Tracer<'a> {
    worklist: Vec<Gc>,
    marker: PhantomData<&'a ()>,
}

impl<'a> Tracer<'a> {
    /// The work queue: what was queued before, then every handle marked so far.
    pub closed spec fn reported(&self) -> Seq<Gc> {
        self.worklist@
    }

    /// Wraps the collector's work queue.
    pub(crate) fn new(worklist: Vec<Gc>) -> (tracer: Tracer<'a>)
        ensures
            tracer.reported() == worklist@,
    {
        Tracer { worklist, marker: PhantomData }
    }

    /// Hands the work queue back to the collector.
    pub(crate) fn into_worklist(self) -> (worklist: Vec<Gc>)
        ensures
            worklist@ == self.reported(),
    {
        self.worklist
    }

    /// Records that the object being traced holds `handle`, so the collector will
    /// visit, and thereby keep alive, the object it names.
    ///
    /// The handle is read against the heap being collected: if it names no live
    /// object there it is ignored, and a handle minted by another heap is taken
    /// as an index and generation of this one.
    pub fn mark(&mut self, handle: Gc)
        ensures
            final(self).reported() == old(self).reported().push(handle),
    {
        self.worklist.push(handle);
    }
}

} // verus!
