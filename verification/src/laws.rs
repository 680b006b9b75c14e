//! Properties of the heap that span its operations: what an allocation gives
//! back, what a collection keeps, and what stays true across calls.

use vstd::prelude::*;

use crate::graph::{is_path, lemma_path_end_is_live, live_in, names, points_to, reachable};
use crate::handle::Gc;
use crate::heap::{
    collected_slots, lemma_shape_names_one_capacity, reclaimed_count, reclaims, recycled_indices,
    recycles, shape_description, CollectStats, Heap,
};
use crate::trace::Trace;

verus! {

/// A value just allocated resolves through the handle the allocation returned.
pub proof fn lemma_alloc_then_lookup<T>(heap: Heap<T>, value: T, next: Heap<T>, handle: Gc)
    requires
        heap.wf(),
        heap.allocates(value, next, handle),
    ensures
        next.is_live(handle),
        next.lookup(handle) == Some(value),
{
    heap.lemma_wf_shape();
}

/// An allocation returns a handle that named no live object before, so it differs
/// from every handle that was live.
pub proof fn lemma_alloc_returns_fresh_handle<T>(heap: Heap<T>, value: T, next: Heap<T>, handle: Gc)
    requires
        heap.wf(),
        heap.allocates(value, next, handle),
    ensures
        !heap.is_live(handle),
{
    heap.lemma_wf_shape();
}

/// An allocation changes what no other handle resolves to.
pub proof fn lemma_alloc_preserves_other_handles<T>(
    heap: Heap<T>,
    value: T,
    next: Heap<T>,
    handle: Gc,
    other: Gc,
)
    requires
        heap.wf(),
        heap.allocates(value, next, handle),
        other != handle,
    ensures
        next.lookup(other) == heap.lookup(other),
{
    heap.lemma_wf_shape();
    Gc::lemma_equal_parts(other, handle);
    if heap.free_list().len() > 0 {
        assert(heap.free_list()[heap.free_list().len() - 1] == heap.free_list().last());
    }
}

/// An allocation adds exactly one live object: the one in the returned slot.
pub proof fn lemma_alloc_adds_one_object<T>(heap: Heap<T>, value: T, next: Heap<T>, handle: Gc)
    requires
        heap.wf(),
        heap.allocates(value, next, handle),
    ensures
        next.live_set() == heap.live_set().insert(handle.index() as int),
        !heap.live_set().contains(handle.index() as int),
        next.live_count() == heap.live_count() + 1,
{
    heap.lemma_wf_shape();
    assert(next.live_set() =~= heap.live_set().insert(handle.index() as int));
}

/// Allocation fails exactly when all `u32::MAX + 1` slot indices are in use and
/// every slot holds a live object or is retired.
pub proof fn lemma_alloc_fails_exactly_when_full<T>(heap: Heap<T>)
    requires
        heap.wf(),
    ensures
        heap.alloc_fails() <==> (heap@.len() == u32::MAX + 1 && forall|i: int|
            0 <= i < heap@.len() ==> heap@[i].0 is Some || #[trigger] heap.is_retired(i)),
{
    heap.lemma_wf_shape();
    if heap@.len() == u32::MAX + 1 && forall|i: int|
        0 <= i < heap@.len() ==> heap@[i].0 is Some || #[trigger] heap.is_retired(i) {
        if heap.free_list().len() > 0 {
            let i = heap.free_list()[0] as int;
            assert(heap.free_list().contains(i as u32));
            assert(!heap.is_retired(i));
        }
    }
}

/// Allocation is determined by the heap: `try_alloc` and `allocate` return the
/// same handle and leave the same heap, whatever the call.
pub proof fn lemma_allocation_is_determined<T>(
    heap: Heap<T>,
    value: T,
    next: Heap<T>,
    handle: Gc,
    other_next: Heap<T>,
    other_handle: Gc,
)
    requires
        heap.allocates(value, next, handle),
        heap.allocates(value, other_next, other_handle),
    ensures
        handle == other_handle,
        next@ == other_next@,
        next.free_list() == other_next.free_list(),
{
    Gc::lemma_equal_parts(handle, other_handle);
}

/// What every successful allocation does: it returns a handle that named nothing
/// before, the handle now resolves to the stored value, and one object is added.
pub proof fn lemma_alloc_effects<T>(heap: Heap<T>, value: T, next: Heap<T>, handle: Gc)
    requires
        heap.wf(),
        heap.allocates(value, next, handle),
    ensures
        !heap.is_live(handle),
        next.lookup(handle) == Some(value),
        next.live_count() == heap.live_count() + 1,
{
    lemma_alloc_returns_fresh_handle(heap, value, next, handle);
    lemma_alloc_then_lookup(heap, value, next, handle);
    lemma_alloc_adds_one_object(heap, value, next, handle);
}

/// After a collection, a handle resolves to what it resolved to before when it
/// names a slot reachable from the roots, and to `None` otherwise: reachable
/// objects survive untouched, everything else is reclaimed, and a handle never
/// resolves to an unrelated object.
pub proof fn lemma_collect_resolution<T: Trace>(
    heap: Heap<T>,
    roots: Seq<Gc>,
    next: Heap<T>,
    stats: crate::heap::CollectStats,
    handle: Gc,
)
    requires
        heap.collects(roots, next, stats),
    ensures
        next.lookup(handle) == (if heap.reachable(roots, handle.index() as int) {
            heap.lookup(handle)
        } else {
            None
        }),
{
    let i = handle.index() as int;
    if heap.reachable(roots, i) {
        let path = choose|path: Seq<int>| #[trigger] is_path(heap@, roots, path) && path.last() == i;
        lemma_path_end_is_live(heap@, roots, path);
    }
}

/// After a collection the live objects are exactly those reachable from the
/// roots, and the survivor count reported is their number.
pub proof fn lemma_collect_keeps_exactly_reachable<T: Trace>(
    heap: Heap<T>,
    roots: Seq<Gc>,
    next: Heap<T>,
    stats: crate::heap::CollectStats,
)
    requires
        heap.collects(roots, next, stats),
    ensures
        next.live_set() == heap.reachable_set(roots),
        stats.live == heap.reachable_set(roots).len(),
{
    assert forall|i: int| #[trigger] next.live_set().contains(i) <==> heap.reachable_set(roots).contains(i) by {
        if heap.reachable(roots, i) {
            let path = choose|path: Seq<int>| #[trigger] is_path(heap@, roots, path) && path.last() == i;
            lemma_path_end_is_live(heap@, roots, path);
        }
    }
    assert(next.live_set() =~= heap.reachable_set(roots));
}

/// A walk is a walk whether or not a root that names no live object is added.
proof fn lemma_dead_root_paths<T: Trace>(
    slots: Seq<(Option<T>, u32)>,
    roots: Seq<Gc>,
    dead: Gc,
    path: Seq<int>,
)
    requires
        !live_in(slots, dead),
    ensures
        is_path(slots, roots.push(dead), path) == is_path(slots, roots, path),
    decreases path.len(),
{
    let more = roots.push(dead);
    if path.len() == 1 {
        if is_path(slots, more, path) {
            let r = choose|r: int| 0 <= r < more.len() && names(slots, #[trigger] more[r], path[0]);
            assert(r < roots.len());
            assert(roots[r] == more[r]);
        }
        if is_path(slots, roots, path) {
            let r = choose|r: int| 0 <= r < roots.len() && names(slots, #[trigger] roots[r], path[0]);
            assert(roots[r] == more[r]);
        }
    } else if path.len() > 1 {
        lemma_dead_root_paths(slots, roots, dead, path.drop_last());
    }
}

/// A root that names no live object is ignored: adding it to the roots changes
/// what is reachable nowhere.
pub proof fn lemma_dead_root_ignored<T: Trace>(heap: Heap<T>, roots: Seq<Gc>, dead: Gc, i: int)
    requires
        !heap.is_live(dead),
    ensures
        heap.reachable(roots.push(dead), i) == heap.reachable(roots, i),
{
    if heap.reachable(roots.push(dead), i) {
        let path = choose|path: Seq<int>| #[trigger] is_path(heap@, roots.push(dead), path) && path.last() == i;
        lemma_dead_root_paths(heap@, roots, dead, path);
    }
    if heap.reachable(roots, i) {
        let path = choose|path: Seq<int>| #[trigger] is_path(heap@, roots, path) && path.last() == i;
        lemma_dead_root_paths(heap@, roots, dead, path);
    }
}

/// A slot that holds an object after a collection held the same slot before.
proof fn lemma_collected_live_slot<T: Trace>(slots: Seq<(Option<T>, u32)>, roots: Seq<Gc>, i: int)
    requires
        0 <= i < slots.len(),
        collected_slots(slots, roots)[i].0 is Some,
    ensures
        collected_slots(slots, roots)[i] == slots[i],
        !reclaims(slots, roots, i),
{
}

/// A walk in the heap before a collection is a walk after it.
proof fn lemma_paths_survive<T: Trace>(slots: Seq<(Option<T>, u32)>, roots: Seq<Gc>, path: Seq<int>)
    requires
        is_path(slots, roots, path),
    ensures
        is_path(collected_slots(slots, roots), roots, path),
    decreases path.len(),
{
    let after = collected_slots(slots, roots);
    lemma_path_end_is_live(slots, roots, path);
    let j = path.last();
    assert(reachable(slots, roots, j));
    assert(after[j] == slots[j]);
    if path.len() == 1 {
        let r = choose|r: int| 0 <= r < roots.len() && names(slots, #[trigger] roots[r], path[0]);
        assert(names(after, roots[r], path[0]));
    } else {
        let prev = path.drop_last();
        lemma_paths_survive(slots, roots, prev);
        lemma_path_end_is_live(slots, roots, prev);
        let i = path[path.len() - 2];
        assert(prev.last() == i);
        assert(reachable(slots, roots, i));
        assert(after[i] == slots[i]);
        let k = choose|k: int|
            0 <= k < slots[i].0.unwrap().handles().len() && names(
                slots,
                #[trigger] slots[i].0.unwrap().handles()[k],
                j,
            );
        assert(names(after, after[i].0.unwrap().handles()[k], j));
        assert(points_to(after, i, j));
    }
}

/// A walk in the heap after a collection was a walk before it.
proof fn lemma_paths_were_there<T: Trace>(slots: Seq<(Option<T>, u32)>, roots: Seq<Gc>, path: Seq<int>)
    requires
        is_path(collected_slots(slots, roots), roots, path),
    ensures
        is_path(slots, roots, path),
    decreases path.len(),
{
    let after = collected_slots(slots, roots);
    lemma_path_end_is_live(after, roots, path);
    let j = path.last();
    lemma_collected_live_slot(slots, roots, j);
    if path.len() == 1 {
        let r = choose|r: int| 0 <= r < roots.len() && names(after, #[trigger] roots[r], path[0]);
        assert(names(slots, roots[r], path[0]));
    } else {
        let prev = path.drop_last();
        lemma_paths_were_there(slots, roots, prev);
        lemma_path_end_is_live(after, roots, prev);
        let i = path[path.len() - 2];
        assert(prev.last() == i);
        lemma_collected_live_slot(slots, roots, i);
        let k = choose|k: int|
            0 <= k < after[i].0.unwrap().handles().len() && names(
                after,
                #[trigger] after[i].0.unwrap().handles()[k],
                j,
            );
        assert(names(slots, slots[i].0.unwrap().handles()[k], j));
        assert(points_to(slots, i, j));
    }
}

/// A second collection from the same roots finds nothing to reclaim.
proof fn lemma_nothing_left_to_reclaim<T: Trace>(slots: Seq<(Option<T>, u32)>, roots: Seq<Gc>, n: int)
    requires
        n <= slots.len(),
    ensures
        recycled_indices(collected_slots(slots, roots), roots, n) == Seq::<u32>::empty(),
        reclaimed_count(collected_slots(slots, roots), roots, n) == 0,
        forall|i: int| 0 <= i < n ==> !reclaims(collected_slots(slots, roots), roots, i),
    decreases n,
{
    let after = collected_slots(slots, roots);
    assert forall|i: int| 0 <= i < n implies !reclaims(after, roots, i) by {
        if after[i].0 is Some {
            lemma_collected_live_slot(slots, roots, i);
            if !reachable(after, roots, i) {
                assert(reachable(slots, roots, i));
                let p = choose|p: Seq<int>| #[trigger] is_path(slots, roots, p) && p.last() == i;
                lemma_paths_survive(slots, roots, p);
            }
        }
    }
    if n > 0 {
        lemma_nothing_left_to_reclaim(slots, roots, n - 1);
    }
}

/// Collecting twice from the same roots: the second pass reclaims nothing,
/// leaves every slot and the free list as the first pass left them, and reports
/// the same survivors.
pub proof fn lemma_collect_twice<T: Trace>(
    heap: Heap<T>,
    roots: Seq<Gc>,
    mid: Heap<T>,
    first: CollectStats,
    next: Heap<T>,
    second: CollectStats,
)
    requires
        heap.collects(roots, mid, first),
        mid.collects(roots, next, second),
    ensures
        second.freed == 0,
        second.live == first.live,
        next@ == mid@,
        next.free_list() == mid.free_list(),
        forall|handle: Gc| #[trigger] next.lookup(handle) == mid.lookup(handle),
{
    let n = heap@.len() as int;
    lemma_nothing_left_to_reclaim(heap@, roots, n);
    assert(collected_slots(mid@, roots) =~= mid@);
    assert(mid.free_list() + Seq::<u32>::empty() =~= mid.free_list());
    assert(next.live_set() =~= mid.live_set());
}

/// Every index a collection returns to the free list is below `n` and held an
/// object the collection reclaimed, at a generation below `u32::MAX`.
proof fn lemma_recycled_members<T: Trace>(slots: Seq<(Option<T>, u32)>, roots: Seq<Gc>, n: int)
    requires
        n <= slots.len(),
        n <= u32::MAX + 1,
    ensures
        forall|k: int|
            0 <= k < recycled_indices(slots, roots, n).len() ==> {
                &&& 0 <= #[trigger] recycled_indices(slots, roots, n)[k] < n
                &&& recycles(slots, roots, recycled_indices(slots, roots, n)[k] as int)
            },
        recycled_indices(slots, roots, n).len() <= reclaimed_count(slots, roots, n),
    decreases n,
{
    if n > 0 {
        lemma_recycled_members(slots, roots, n - 1);
        let prev = recycled_indices(slots, roots, n - 1);
        let cur = recycled_indices(slots, roots, n);
        assert forall|k: int| 0 <= k < cur.len() implies {
            &&& 0 <= #[trigger] cur[k] < n
            &&& recycles(slots, roots, cur[k] as int)
        } by {
            if k < prev.len() {
                assert(cur[k] == prev[k]);
            }
        }
    }
}

/// An object reclaimed by a collection stays dead: its handle names nothing after
/// the collection, and the next allocation, even one reusing its slot, returns a
/// different handle, so the old one still resolves to `None`.
pub proof fn lemma_reclaimed_handle_stays_dead<T: Trace>(
    heap: Heap<T>,
    roots: Seq<Gc>,
    mid: Heap<T>,
    stats: CollectStats,
    value: T,
    next: Heap<T>,
    fresh: Gc,
    stale: Gc,
)
    requires
        heap.wf(),
        heap.collects(roots, mid, stats),
        mid.wf(),
        mid.allocates(value, next, fresh),
        heap.is_live(stale),
        !heap.reachable(roots, stale.index() as int),
    ensures
        !mid.is_live(stale),
        fresh != stale,
        next.lookup(stale) is None,
{
    lemma_collect_buries(heap, roots, mid, stats, stale);
    assert(mid.allocates(value, next, fresh));
    lemma_step_keeps_buried(mid, next, stale);
    lemma_buried_is_dead(mid, stale);
    lemma_buried_is_dead(next, stale);
    lemma_alloc_then_lookup(mid, value, next, fresh);
}

/// The slot store grows only when no reclaimed slot is waiting for reuse.
pub proof fn lemma_alloc_reuses_before_growing<T>(heap: Heap<T>, value: T, next: Heap<T>, handle: Gc)
    requires
        heap.wf(),
        heap.allocates(value, next, handle),
    ensures
        heap.free_list().len() > 0 ==> next@.len() == heap@.len(),
        heap.free_list().len() == 0 ==> next@.len() == heap@.len() + 1,
{
    heap.lemma_wf_shape();
}

/// A collection neither grows nor shrinks the slot store: reclaimed slots stay
/// in place, and each goes on the free list unless it is retired.
pub proof fn lemma_collect_keeps_store_size<T: Trace>(
    heap: Heap<T>,
    roots: Seq<Gc>,
    next: Heap<T>,
    stats: CollectStats,
)
    requires
        heap.wf(),
        heap.collects(roots, next, stats),
    ensures
        next@.len() == heap@.len(),
        next.free_list().len() <= heap.free_list().len() + stats.freed,
{
    heap.lemma_wf_shape();
    lemma_recycled_members(heap@, roots, heap@.len() as int);
}

/// Slot `i` was written through a live handle: its object replaced, its
/// generation and the free list unchanged.
pub open spec fn writes<T>(heap: Heap<T>, next: Heap<T>, i: int) -> bool {
    &&& 0 <= i < heap@.len()
    &&& heap@[i].0 is Some
    &&& exists|value: T| #[trigger] heap@.update(i, (Some(value), heap@[i].1)) == next@
    &&& next.free_list() == heap.free_list()
}

/// `next` follows `heap` by one operation: an allocation, a collection, a write
/// through [`Heap::get_mut`], or an operation that changed nothing (a read, or an
/// allocation that failed).
pub open spec fn heap_step<T: Trace>(heap: Heap<T>, next: Heap<T>) -> bool {
    ||| exists|value: T, handle: Gc| #[trigger] heap.allocates(value, next, handle)
    ||| exists|roots: Seq<Gc>, stats: CollectStats| #[trigger] heap.collects(roots, next, stats)
    ||| exists|i: int| #[trigger] writes(heap, next, i)
    ||| (next@ == heap@ && next.free_list() == heap.free_list())
}

/// `states` is a run of well-formed heaps, each following the one before by one
/// operation.
pub open spec fn is_run<T: Trace>(states: Seq<Heap<T>>) -> bool {
    &&& forall|t: int| 0 <= t < states.len() ==> #[trigger] states[t].wf()
    &&& forall|t: int| 0 < t < states.len() ==> heap_step(states[t - 1], #[trigger] states[t])
}

/// One operation keeps a live handle's value, unless it writes that handle's slot.
proof fn lemma_step_keeps_value<T: Trace>(heap: Heap<T>, next: Heap<T>, handle: Gc)
    requires
        heap.wf(),
        heap_step(heap, next),
        heap.is_live(handle),
        next.is_live(handle),
        !writes(heap, next, handle.index() as int),
    ensures
        next.lookup(handle) == heap.lookup(handle),
{
    if exists|value: T, fresh: Gc| #[trigger] heap.allocates(value, next, fresh) {
        let (value, fresh) = choose|value: T, fresh: Gc| #[trigger] heap.allocates(value, next, fresh);
        lemma_alloc_returns_fresh_handle(heap, value, next, fresh);
        lemma_alloc_preserves_other_handles(heap, value, next, fresh, handle);
    } else if exists|roots: Seq<Gc>, stats: CollectStats| #[trigger] heap.collects(roots, next, stats) {
        let (roots, stats) = choose|roots: Seq<Gc>, stats: CollectStats| #[trigger] heap.collects(roots, next, stats);
        lemma_collect_resolution(heap, roots, next, stats, handle);
    } else if exists|i: int| #[trigger] writes(heap, next, i) {
        let i = choose|i: int| #[trigger] writes(heap, next, i);
        let value = choose|value: T| #[trigger] heap@.update(i, (Some(value), heap@[i].1)) == next@;
        assert(next@[handle.index() as int] == heap@[handle.index() as int]);
    }
}

/// Over any run in which a handle stays live and its slot is never written, the
/// handle resolves to the value stored under it throughout.
pub proof fn lemma_live_handle_keeps_its_value<T: Trace>(states: Seq<Heap<T>>, handle: Gc, t: int)
    requires
        is_run(states),
        0 <= t < states.len(),
        forall|u: int| 0 <= u < states.len() ==> #[trigger] states[u].is_live(handle),
        forall|u: int|
            0 < u < states.len() ==> !writes(states[u - 1], #[trigger] states[u], handle.index() as int),
    ensures
        states[t].lookup(handle) == states[0].lookup(handle),
    decreases t,
{
    if t > 0 {
        lemma_live_handle_keeps_its_value(states, handle, t - 1);
        assert(states[t - 1].wf());
        assert(states[t - 1].is_live(handle));
        assert(states[t].is_live(handle));
        assert(heap_step(states[t - 1], states[t]));
        lemma_step_keeps_value(states[t - 1], states[t], handle);
    }
}

/// `handle` can never name a live object again: its slot's generation has moved
/// past the handle's, or the slot is retired at the handle's generation.
pub open spec fn buried<T>(heap: Heap<T>, handle: Gc) -> bool {
    let i = handle.index() as int;
    &&& i < heap@.len()
    &&& heap@[i].1 > handle.generation() || (heap.is_retired(i) && heap@[i].1
        == handle.generation())
}

/// A buried handle names no live object.
proof fn lemma_buried_is_dead<T>(heap: Heap<T>, handle: Gc)
    requires
        buried(heap, handle),
    ensures
        !heap.is_live(handle),
{
}

/// A collection buries the handle of every object it reclaims.
pub proof fn lemma_collect_buries<T: Trace>(
    heap: Heap<T>,
    roots: Seq<Gc>,
    next: Heap<T>,
    stats: CollectStats,
    handle: Gc,
)
    requires
        heap.wf(),
        heap.collects(roots, next, stats),
        heap.is_live(handle),
        !heap.reachable(roots, handle.index() as int),
    ensures
        buried(next, handle),
{
    let i = handle.index() as int;
    heap.lemma_wf_shape();
    lemma_recycled_members(heap@, roots, heap@.len() as int);
    assert(reclaims(heap@, roots, i));
    if handle.generation() == u32::MAX {
        let recycled = recycled_indices(heap@, roots, heap@.len() as int);
        if next.free_list().contains(i as u32) {
            let k = choose|k: int| 0 <= k < next.free_list().len() && next.free_list()[k] == i as u32;
            if k < heap.free_list().len() {
                assert(heap.free_list()[k] == i as u32);
            } else {
                assert(recycled[k - heap.free_list().len()] == i as u32);
            }
        }
    }
}

/// One operation keeps a buried handle buried.
proof fn lemma_step_keeps_buried<T: Trace>(heap: Heap<T>, next: Heap<T>, handle: Gc)
    requires
        heap.wf(),
        heap_step(heap, next),
        buried(heap, handle),
    ensures
        buried(next, handle),
{
    let i = handle.index() as int;
    heap.lemma_wf_shape();
    if exists|value: T, fresh: Gc| #[trigger] heap.allocates(value, next, fresh) {
        let (value, fresh) = choose|value: T, fresh: Gc| #[trigger] heap.allocates(value, next, fresh);
        if heap.free_list().len() > 0 && next.free_list().contains(i as u32) {
            let k = choose|k: int| 0 <= k < next.free_list().len() && next.free_list()[k] == i as u32;
            assert(heap.free_list()[k] == i as u32);
        }
    } else if exists|roots: Seq<Gc>, stats: CollectStats| #[trigger] heap.collects(roots, next, stats) {
        let (roots, stats) = choose|roots: Seq<Gc>, stats: CollectStats| #[trigger] heap.collects(roots, next, stats);
        heap.lemma_wf_shape();
        lemma_recycled_members(heap@, roots, heap@.len() as int);
        let recycled = recycled_indices(heap@, roots, heap@.len() as int);
        if heap.is_retired(i) && next.free_list().contains(i as u32) {
            let k = choose|k: int| 0 <= k < next.free_list().len() && next.free_list()[k] == i as u32;
            if k < heap.free_list().len() {
                assert(heap.free_list()[k] == i as u32);
            } else {
                assert(recycled[k - heap.free_list().len()] == i as u32);
            }
        }
    } else if exists|j: int| #[trigger] writes(heap, next, j) {
        let j = choose|j: int| #[trigger] writes(heap, next, j);
        let value = choose|value: T| #[trigger] heap@.update(j, (Some(value), heap@[j].1)) == next@;
        assert(next@[i] == heap@.update(j, (Some(value), heap@[j].1))[i]);
    }
}

/// Along a run, a handle buried at one state stays buried, and so names no live
/// object, at every later state.
pub proof fn lemma_buried_handle_stays_dead<T: Trace>(
    states: Seq<Heap<T>>,
    handle: Gc,
    start: int,
    t: int,
)
    requires
        is_run(states),
        0 <= start <= t < states.len(),
        buried(states[start], handle),
    ensures
        buried(states[t], handle),
        !states[t].is_live(handle),
    decreases t - start,
{
    if t > start {
        lemma_buried_handle_stays_dead(states, handle, start, t - 1);
        assert(states[t - 1].wf());
        assert(heap_step(states[t - 1], states[t]));
        lemma_step_keeps_buried(states[t - 1], states[t], handle);
    }
    lemma_buried_is_dead(states[t], handle);
}

/// A handle whose object a collection reclaims never names a live object again,
/// however many operations follow and however often its slot is reused.
pub proof fn lemma_reclaimed_handle_never_revives<T: Trace>(
    states: Seq<Heap<T>>,
    roots: Seq<Gc>,
    stats: CollectStats,
    handle: Gc,
    t: int,
)
    requires
        is_run(states),
        1 <= t < states.len(),
        states[0].is_live(handle),
        states[0].collects(roots, states[1], stats),
        !states[0].reachable(roots, handle.index() as int),
    ensures
        !states[t].is_live(handle),
{
    assert(states[0].wf());
    lemma_collect_buries(states[0], roots, states[1], stats, handle);
    lemma_buried_handle_stays_dead(states, handle, 1, t);
}

/// The capacity a heap's debug text shows is the one [`Heap::capacity`] returns:
/// a description of the heap's live and free counts that shows capacity `c`
/// equals the heap's own description only when `c` is the heap's capacity.
pub proof fn lemma_debug_text_shows_capacity<T>(heap: Heap<T>, c: nat)
    requires
        shape_description(heap.live_count(), heap.free_list().len(), c) == shape_description(
            heap.live_count(),
            heap.free_list().len(),
            heap.reserved_capacity(),
        ),
    ensures
        c == heap.reserved_capacity(),
{
    lemma_shape_names_one_capacity(heap.live_count(), heap.free_list().len(), c, heap.reserved_capacity());
}

} // verus!
