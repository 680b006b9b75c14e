//! The object graph of a heap's slots and reachability from a set of roots.

use vstd::prelude::*;

use crate::handle::Gc;
use crate::trace::Trace;

verus! {

/// `handle` names a live object in `slots`: its slot exists, is occupied, and has
/// the handle's generation.
pub open spec fn live_in<T>(slots: Seq<(Option<T>, u32)>, handle: Gc) -> bool {
    &&& (handle.index() as int) < slots.len()
    &&& slots[handle.index() as int].1 == handle.generation()
    &&& slots[handle.index() as int].0 is Some
}

/// `handle` names live slot `i`.
pub open spec fn names<T>(slots: Seq<(Option<T>, u32)>, handle: Gc, i: int) -> bool {
    live_in(slots, handle) && handle.index() == i
}

/// The object in slot `i` owns a handle naming live slot `j`.
pub open spec fn points_to<T: Trace>(slots: Seq<(Option<T>, u32)>, i: int, j: int) -> bool {
    &&& 0 <= i < slots.len()
    &&& slots[i].0 is Some
    &&& exists|k: int|
        0 <= k < slots[i].0.unwrap().handles().len() && names(
            slots,
            #[trigger] slots[i].0.unwrap().handles()[k],
            j,
        )
}

/// `path` is a walk through the object graph: its first slot is named by one of
/// `roots`, and each next slot by a handle the object before it owns.
pub open spec fn is_path<T: Trace>(
    slots: Seq<(Option<T>, u32)>,
    roots: Seq<Gc>,
    path: Seq<int>,
) -> bool
    decreases path.len(),
{
    if path.len() == 0 {
        false
    } else if path.len() == 1 {
        exists|r: int| 0 <= r < roots.len() && names(slots, #[trigger] roots[r], path[0])
    } else {
        &&& is_path(slots, roots, path.drop_last())
        &&& points_to(slots, path[path.len() - 2], path.last())
    }
}

/// Slot `i` is reachable from `roots`: some walk from a root ends at it.
pub open spec fn reachable<T: Trace>(
    slots: Seq<(Option<T>, u32)>,
    roots: Seq<Gc>,
    i: int,
) -> bool {
    exists|path: Seq<int>| #[trigger] is_path(slots, roots, path) && path.last() == i
}

/// Every slot a walk reaches holds a live object.
pub proof fn lemma_path_end_is_live<T: Trace>(
    slots: Seq<(Option<T>, u32)>,
    roots: Seq<Gc>,
    path: Seq<int>,
)
    requires
        is_path(slots, roots, path),
    ensures
        0 <= path.last() < slots.len(),
        slots[path.last()].0 is Some,
{
    if path.len() == 1 {
        let r = choose|r: int| 0 <= r < roots.len() && names(slots, #[trigger] roots[r], path[0]);
    } else {
        let i = path[path.len() - 2];
        let k = choose|k: int|
            0 <= k < slots[i].0.unwrap().handles().len() && names(
                slots,
                #[trigger] slots[i].0.unwrap().handles()[k],
                path.last(),
            );
    }
}

/// A walk extended by one step is a walk.
pub proof fn lemma_path_extend<T: Trace>(
    slots: Seq<(Option<T>, u32)>,
    roots: Seq<Gc>,
    path: Seq<int>,
    j: int,
)
    requires
        is_path(slots, roots, path),
        points_to(slots, path.last(), j),
    ensures
        is_path(slots, roots, path.push(j)),
        path.push(j).last() == j,
{
    assert(path.push(j).drop_last() =~= path);
}

/// A root naming a live slot is a walk of one step.
pub proof fn lemma_root_path<T: Trace>(slots: Seq<(Option<T>, u32)>, roots: Seq<Gc>, r: int)
    requires
        0 <= r < roots.len(),
        live_in(slots, roots[r]),
    ensures
        is_path(slots, roots, seq![roots[r].index() as int]),
        reachable(slots, roots, roots[r].index() as int),
{
    let path = seq![roots[r].index() as int];
    assert(names(slots, roots[r], path[0]));
    assert(is_path(slots, roots, path));
}

/// A set of slots that holds every slot a live root names, and every live slot
/// named by an object in the set, holds every reachable slot.
pub proof fn lemma_closed_set_holds_reachable<T: Trace>(
    slots: Seq<(Option<T>, u32)>,
    roots: Seq<Gc>,
    set: Set<int>,
    path: Seq<int>,
)
    requires
        forall|r: int|
            0 <= r < roots.len() && live_in(slots, #[trigger] roots[r]) ==> set.contains(
                roots[r].index() as int,
            ),
        forall|i: int, k: int|
            set.contains(i) && 0 <= i < slots.len() && slots[i].0 is Some && 0 <= k
                < slots[i].0.unwrap().handles().len() && live_in(
                slots,
                #[trigger] slots[i].0.unwrap().handles()[k],
            ) ==> set.contains(slots[i].0.unwrap().handles()[k].index() as int),
        is_path(slots, roots, path),
    ensures
        set.contains(path.last()),
    decreases path.len(),
{
    if path.len() == 1 {
        let r = choose|r: int| 0 <= r < roots.len() && names(slots, #[trigger] roots[r], path[0]);
    } else {
        let prev = path.drop_last();
        lemma_closed_set_holds_reachable(slots, roots, set, prev);
        let i = path[path.len() - 2];
        assert(prev.last() == i);
        let k = choose|k: int|
            0 <= k < slots[i].0.unwrap().handles().len() && names(
                slots,
                #[trigger] slots[i].0.unwrap().handles()[k],
                path.last(),
            );
    }
}

} // verus!
